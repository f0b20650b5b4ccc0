//! The atlas: named texture regions, kept in the order in which they were
//! first seen, one region per name.

use vstd::prelude::*;
use vstd::string::StrSliceExecFns;
use crate::text::{
    after_bytes, bool_of, cut, find, find_char, i16_of, lemma_find_char, lines_of, parse_bool,
    parse_i16, parse_u16, skip_bytes, split_lines, to_chars, trim, trimmed, u16_of, within, Span,
};

verus! {

/// One packed sub-image of the atlas.
#[derive(Clone, Copy, PartialEq, Eq, Debug)]
pub struct Texture {
    /// Stored turned by 90 degrees.
    pub rotate: bool,
    /// Top-left pixel of the region in the atlas image.
    pub xy: (u16, u16),
    /// Width and height as stored.
    pub size: (u16, u16),
    /// Size before trimming.
    pub orig: (u16, u16),
    /// Where the trimmed image sits within `orig`.
    pub offset: (u16, u16),
    /// Place in an indexed set of pages, or -1.
    pub index: i16,
}

impl Texture {
    /// The region lies within an atlas image of `width` by `height`
    /// pixels. Reading an atlas does not see to this; whoever knows the
    /// image does.
    pub open spec fn inside(self, width: u32, height: u32) -> bool {
        self.xy.0 + self.size.0 <= width && self.xy.1 + self.size.1 <= height
    }

    /// Whether the region lies within an atlas image of `width` by
    /// `height` pixels.
    pub fn lies_within(&self, width: u32, height: u32) -> (fits: bool)
        ensures
            fits == self.inside(width, height),
    {
        self.xy.0 as u32 + self.size.0 as u32 <= width && self.xy.1 as u32 + self.size.1 as u32
            <= height
    }
}

/// A texture under its name.
pub struct Region {
    pub name: String,
    pub texture: Texture,
}

/// What a region is to a contract: its name as characters, and its texture.
pub type Entry = (Seq<char>, Texture);

/// The names of `entries`, in order.
pub open spec fn names_of(entries: Seq<Entry>) -> Seq<Seq<char>> {
    Seq::new(entries.len(), |i: int| entries[i].0)
}

/// No name occurs twice.
pub open spec fn distinct(names: Seq<Seq<char>>) -> bool {
    forall|i: int, j: int| 0 <= i < j < names.len() ==> names[i] != names[j]
}

/// `k` is the first place at which `name` stands in `names`.
pub open spec fn is_first_at(names: Seq<Seq<char>>, name: Seq<char>, k: int) -> bool {
    &&& 0 <= k < names.len()
    &&& names[k] == name
    &&& forall|j: int| 0 <= j < k ==> names[j] != name
}

/// The first place at which `name` stands in `names`, if it stands there.
pub open spec fn first_position(names: Seq<Seq<char>>, name: Seq<char>) -> Option<int> {
    if exists|k: int| is_first_at(names, name, k) {
        Some(choose|k: int| is_first_at(names, name, k))
    } else {
        None
    }
}

/// `entries` with `texture` put under `name`: in the place of the texture
/// that stood under that name, or at the end where none did.
pub open spec fn put(entries: Seq<Entry>, name: Seq<char>, texture: Texture) -> Seq<Entry> {
    match first_position(names_of(entries), name) {
        Some(k) => entries.update(k, (name, texture)),
        None => entries.push((name, texture)),
    }
}

/// What is known of the first position: where it is `Some`, and where `None`.
pub proof fn lemma_first_position(names: Seq<Seq<char>>, name: Seq<char>)
    ensures
        match first_position(names, name) {
            Some(k) => is_first_at(names, name, k),
            None => forall|j: int| 0 <= j < names.len() ==> names[j] != name,
        },
        forall|k: int| is_first_at(names, name, k) ==> first_position(names, name) == Some(k),
{
    if exists|k: int| is_first_at(names, name, k) {
        let c = choose|k: int| is_first_at(names, name, k);
        assert forall|k: int| is_first_at(names, name, k) implies k == c by {
            if k < c {
                assert(names[k] == name);
            } else if c < k {
                assert(names[c] == name);
            }
        }
    } else {
        assert forall|j: int| 0 <= j < names.len() implies names[j] != name by {
            if names[j] == name {
                lemma_some_first(names, name, j);
            }
        }
    }
}

/// A name that stands somewhere stands somewhere first.
proof fn lemma_some_first(names: Seq<Seq<char>>, name: Seq<char>, j: int)
    requires
        0 <= j < names.len(),
        names[j] == name,
    ensures
        exists|k: int| is_first_at(names, name, k),
    decreases j,
{
    if forall|i: int| 0 <= i < j ==> names[i] != name {
        assert(is_first_at(names, name, j));
    } else {
        let i = choose|i: int| 0 <= i < j && names[i] == name;
        lemma_some_first(names, name, i);
    }
}

/// An ordered collection of texture regions, keyed by name.
pub struct Atlas {
    regions: Vec<Region>,
}

impl View for Atlas {
    type V = Seq<Entry>;

    closed spec fn view(&self) -> Seq<Entry> {
        Seq::new(self.regions@.len(), |i: int| (self.regions@[i].name@, self.regions@[i].texture))
    }
}

impl Atlas {
    /// Each name stands once. Every atlas that `new`, `insert` and `parse`
    /// make is so.
    pub open spec fn wf(&self) -> bool {
        distinct(names_of(self@))
    }

    /// The atlas without regions.
    pub fn new() -> (atlas: Atlas)
        ensures
            atlas@ == Seq::<Entry>::empty(),
            atlas.wf(),
    {
        Atlas { regions: Vec::new() }
    }

    /// The number of regions.
    pub fn len(&self) -> (n: usize)
        ensures
            n == self@.len(),
    {
        self.regions.len()
    }

    /// The region at place `k`, counted from 0 in the order of first
    /// insertion.
    pub fn region(&self, k: usize) -> (region: Option<&Region>)
        ensures
            match region {
                Some(r) => k < self@.len() && (r.name@, r.texture) == self@[k as int],
                None => k >= self@.len(),
            },
    {
        if k < self.regions.len() {
            Some(&self.regions[k])
        } else {
            None
        }
    }

    /// The place of the region called `name`.
    pub fn position(&self, name: &str) -> (place: Option<usize>)
        ensures
            match place {
                Some(k) => first_position(names_of(self@), name@) == Some(k as int),
                None => first_position(names_of(self@), name@) is None,
            },
    {
        let key: String = name.to_owned();
        let mut k: usize = 0;
        while k < self.regions.len()
            invariant
                k <= self.regions.len(),
                key@ == name@,
                forall|j: int| 0 <= j < k ==> names_of(self@)[j] != name@,
            decreases self.regions.len() - k,
        {
            if self.regions[k].name == key {
                proof {
                    assert(is_first_at(names_of(self@), name@, k as int));
                    lemma_first_position(names_of(self@), name@);
                }
                return Some(k);
            }
            k += 1;
        }
        proof {
            lemma_first_position(names_of(self@), name@);
        }
        None
    }

    /// The texture of the region called `name`.
    pub fn get(&self, name: &str) -> (texture: Option<Texture>)
        ensures
            match first_position(names_of(self@), name@) {
                Some(k) => texture == Some(self@[k].1),
                None => texture is None,
            },
    {
        match self.position(name) {
            Some(k) => Some(self.regions[k].texture),
            None => None,
        }
    }

    /// Puts `texture` under `name`. A region of that name keeps its place
    /// and takes the new texture; a new name goes to the end.
    pub fn insert(&mut self, name: String, texture: Texture)
        ensures
            final(self)@ == put(old(self)@, name@, texture),
            old(self).wf() ==> final(self).wf(),
    {
        let place = self.position(name.as_str());
        proof {
            lemma_first_position(names_of(self@), name@);
        }
        match place {
            Some(k) => {
                self.regions.set(k, Region { name, texture });
                assert(self@ =~= old(self)@.update(k as int, (name@, texture)));
                assert(names_of(self@) =~= names_of(old(self)@));
            },
            None => {
                self.regions.push(Region { name, texture });
                assert(self@ =~= old(self)@.push((name@, texture)));
                assert forall|i: int, j: int|
                    old(self).wf() && 0 <= i < j < names_of(self@).len() implies names_of(
                    self@,
                )[i] != names_of(self@)[j] by {
                    assert(names_of(self@)[i] == names_of(old(self)@)[i]);
                    if j < old(self)@.len() {
                        assert(names_of(self@)[j] == names_of(old(self)@)[j]);
                    }
                }
            },
        }
    }
}

/// Why a text is no atlas.
#[derive(Clone, Copy, PartialEq, Eq, Debug, Structural)]
pub enum AtlasError {
    /// The text ends before a region has all its six fields.
    TruncatedRecord,
    /// A field's value is not the number, pair of numbers or truth value
    /// that belongs there.
    InvalidNumericField,
    /// A field's line is too short to hold the field's name, or the name's
    /// length cuts a character in two.
    InvalidLine,
}

impl AtlasError {
    /// The error in words.
    pub fn message(&self) -> (text: String)
        ensures
            text@ == match *self {
                AtlasError::TruncatedRecord => "truncated record"@,
                AtlasError::InvalidNumericField => "invalid numeric field"@,
                AtlasError::InvalidLine => "invalid line"@,
            },
    {
        match self {
            AtlasError::TruncatedRecord => "truncated record".to_owned(),
            AtlasError::InvalidNumericField => "invalid numeric field".to_owned(),
            AtlasError::InvalidLine => "invalid line".to_owned(),
        }
    }
}

/// Length in bytes of `rotate:`, the name that opens a region's first field.
pub const ROTATE_PREFIX: usize = 7;

/// Length in bytes of `xy:`.
pub const XY_PREFIX: usize = 3;

/// Length in bytes of `size:`.
pub const SIZE_PREFIX: usize = 5;

/// Length in bytes of `orig:`.
pub const ORIG_PREFIX: usize = 5;

/// Length in bytes of `offset:`.
pub const OFFSET_PREFIX: usize = 7;

/// Length in bytes of `index:`.
pub const INDEX_PREFIX: usize = 6;

/// The number of lines that a region's fields take.
pub const FIELD_LINES: usize = 6;

/// A line that starts with a tab or a space: it holds a field.
pub open spec fn is_indented(line: Seq<char>) -> bool {
    line.len() > 0 && (line[0] == '\t' || line[0] == ' ')
}

/// What a field's line holds after the field's name: the line without the
/// white space around it and without its first `prefix` bytes. The bytes
/// are cut off unread.
pub open spec fn payload_of(line: Seq<char>, prefix: nat) -> Option<Seq<char>> {
    after_bytes(trimmed(line), prefix)
}

/// The pair that `s` writes: two unsigned 16-bit numbers with a comma
/// between them and any white space around each. What follows a second
/// comma is not read.
pub open spec fn pair_of(s: Seq<char>) -> Option<(u16, u16)> {
    let comma = find_char(s, ',');
    if comma >= s.len() {
        None
    } else {
        let rest = s.skip(comma as int + 1);
        let second = rest.take(find_char(rest, ',') as int);
        match (u16_of(trimmed(s.take(comma as int))), u16_of(trimmed(second))) {
            (Some(a), Some(b)) => Some((a, b)),
            _ => None,
        }
    }
}

/// The truth value in the field line at place `k` of `block`.
pub open spec fn rotate_at(block: Seq<Seq<char>>, k: int) -> Result<bool, AtlasError> {
    if block.len() <= k {
        Err(AtlasError::TruncatedRecord)
    } else {
        match payload_of(block[k], ROTATE_PREFIX as nat) {
            None => Err(AtlasError::InvalidLine),
            Some(payload) => match bool_of(trimmed(payload)) {
                Some(value) => Ok(value),
                None => Err(AtlasError::InvalidNumericField),
            },
        }
    }
}

/// The pair in the field line at place `k` of `block`, after a name of
/// `prefix` bytes.
pub open spec fn pair_at(block: Seq<Seq<char>>, k: int, prefix: nat) -> Result<
    (u16, u16),
    AtlasError,
> {
    if block.len() <= k {
        Err(AtlasError::TruncatedRecord)
    } else {
        match payload_of(block[k], prefix) {
            None => Err(AtlasError::InvalidLine),
            Some(payload) => match pair_of(payload) {
                Some(value) => Ok(value),
                None => Err(AtlasError::InvalidNumericField),
            },
        }
    }
}

/// The signed number in the field line at place `k` of `block`.
pub open spec fn index_at(block: Seq<Seq<char>>, k: int) -> Result<i16, AtlasError> {
    if block.len() <= k {
        Err(AtlasError::TruncatedRecord)
    } else {
        match payload_of(block[k], INDEX_PREFIX as nat) {
            None => Err(AtlasError::InvalidLine),
            Some(payload) => match i16_of(trimmed(payload)) {
                Some(value) => Ok(value),
                None => Err(AtlasError::InvalidNumericField),
            },
        }
    }
}

/// The texture that the lines of `block` describe, the first line being
/// the one with `rotate`. The fields are read in their fixed order, each
/// from the next line, and the first that is missing or wrong decides the
/// error.
#[verifier::opaque]
pub open spec fn texture_of(block: Seq<Seq<char>>) -> Result<Texture, AtlasError> {
    match rotate_at(block, 0) {
        Err(e) => Err(e),
        Ok(rotate) => match pair_at(block, 1, XY_PREFIX as nat) {
            Err(e) => Err(e),
            Ok(xy) => match pair_at(block, 2, SIZE_PREFIX as nat) {
                Err(e) => Err(e),
                Ok(size) => match pair_at(block, 3, ORIG_PREFIX as nat) {
                    Err(e) => Err(e),
                    Ok(orig) => match pair_at(block, 4, OFFSET_PREFIX as nat) {
                        Err(e) => Err(e),
                        Ok(offset) => match index_at(block, 5) {
                            Err(e) => Err(e),
                            Ok(index) => Ok(Texture { rotate, xy, size, orig, offset, index }),
                        },
                    },
                },
            },
        }
    }
}

/// The number of lines at the start of `lines` that hold no field.
pub open spec fn plain_lines(lines: Seq<Seq<char>>) -> nat
    decreases lines.len(),
{
    if lines.len() == 0 || is_indented(lines[0]) {
        0
    } else {
        1 + plain_lines(lines.drop_first())
    }
}

/// The regions that `lines` describe, in their order. A region starts at
/// the first line that holds a field; its name is the line just before
/// that one, or empty where there is none; its six fields follow from that
/// line on, and the next region is looked for after them.
pub open spec fn records_of(lines: Seq<Seq<char>>) -> Result<Seq<Entry>, AtlasError>
    decreases lines.len(),
    via records_take_lines
{
    let first = plain_lines(lines) as int;
    if first >= lines.len() {
        Ok(Seq::empty())
    } else {
        let name = if first > 0 {
            lines[first - 1]
        } else {
            Seq::empty()
        };
        match texture_of(lines.skip(first)) {
            Err(e) => Err(e),
            Ok(texture) => match records_of(lines.skip(first + FIELD_LINES as int)) {
                Err(e) => Err(e),
                Ok(rest) => Ok(seq![(name, texture)] + rest),
            },
        }
    }
}

/// A region's six lines are gone before the next region is looked for.
#[via_fn]
proof fn records_take_lines(lines: Seq<Seq<char>>) {
    reveal(texture_of);
}

/// The atlas that holds `records`, put in one after the other: of two
/// records of one name the later one's texture stays, in the earlier
/// one's place.
pub open spec fn collect(records: Seq<Entry>) -> Seq<Entry>
    decreases records.len(),
{
    if records.len() == 0 {
        Seq::empty()
    } else {
        put(collect(records.drop_last()), records.last().0, records.last().1)
    }
}

/// The pair that `s` writes.
fn read_pair(s: &[char]) -> (pair: Option<(u16, u16)>)
    ensures
        pair == pair_of(s@),
{
    let len: usize = s.len();
    let comma: usize = find(s, ',');
    if comma >= len {
        return None;
    }
    let rest: &[char] = &s[comma + 1..len];
    assert(rest@ =~= s@.skip(comma + 1));
    let stop: usize = find(rest, ',');
    let first = parse_u16(trim(&s[0..comma]));
    let second = parse_u16(trim(&rest[0..stop]));
    assert(s@.subrange(0, comma as int) =~= s@.take(comma as int));
    assert(rest@.subrange(0, stop as int) =~= rest@.take(stop as int));
    match (first, second) {
        (Some(a), Some(b)) => Some((a, b)),
        _ => None,
    }
}

/// Reads a pair such as `12, 34`: two unsigned 16-bit numbers with a comma
/// between them, white space around either being passed over.
pub fn parse_tuple(s: &str) -> (pair: Result<(u16, u16), AtlasError>)
    ensures
        pair == match pair_of(s@) {
            Some(p) => Ok::<(u16, u16), AtlasError>(p),
            None => Err(AtlasError::InvalidNumericField),
        },
{
    let chars: Vec<char> = to_chars(s);
    match read_pair(chars.as_slice()) {
        Some(p) => Ok(p),
        None => Err(AtlasError::InvalidNumericField),
    }
}

/// The line at place `i`.
fn line_at<'a>(chars: &'a [char], spans: &Vec<Span>, i: usize) -> (line: &'a [char])
    requires
        within(spans@, chars@.len()),
        i < spans@.len(),
    ensures
        line@ == cut(chars@, spans@)[i as int],
{
    let span: Span = spans[i];
    &chars[span.start..span.end]
}

/// What the line holds after a name of `prefix` bytes.
fn payload<'a>(line: &'a [char], prefix: usize) -> (rest: Option<&'a [char]>)
    ensures
        match payload_of(line@, prefix as nat) {
            Some(r) => rest matches Some(x) && x@ == r,
            None => rest is None,
        },
{
    skip_bytes(trim(line), prefix)
}

/// The truth value of the field in the line at place `first + k`.
fn read_rotate(chars: &[char], spans: &Vec<Span>, first: usize, k: usize) -> (value: Result<
    bool,
    AtlasError,
>)
    requires
        within(spans@, chars@.len()),
        first <= spans@.len(),
        k < FIELD_LINES,
    ensures
        value == rotate_at(cut(chars@, spans@).skip(first as int), k as int),
{
    if spans.len() - first <= k {
        return Err(AtlasError::TruncatedRecord);
    }
    match payload(line_at(chars, spans, first + k), ROTATE_PREFIX) {
        None => Err(AtlasError::InvalidLine),
        Some(rest) => match parse_bool(trim(rest)) {
            Some(value) => Ok(value),
            None => Err(AtlasError::InvalidNumericField),
        },
    }
}

/// The pair of the field in the line at place `first + k`.
fn read_pair_field(
    chars: &[char],
    spans: &Vec<Span>,
    first: usize,
    k: usize,
    prefix: usize,
) -> (value: Result<(u16, u16), AtlasError>)
    requires
        within(spans@, chars@.len()),
        first <= spans@.len(),
        k < FIELD_LINES,
    ensures
        value == pair_at(cut(chars@, spans@).skip(first as int), k as int, prefix as nat),
{
    if spans.len() - first <= k {
        return Err(AtlasError::TruncatedRecord);
    }
    match payload(line_at(chars, spans, first + k), prefix) {
        None => Err(AtlasError::InvalidLine),
        Some(rest) => match read_pair(rest) {
            Some(value) => Ok(value),
            None => Err(AtlasError::InvalidNumericField),
        },
    }
}

/// The signed number of the field in the line at place `first + k`.
fn read_index(chars: &[char], spans: &Vec<Span>, first: usize, k: usize) -> (value: Result<
    i16,
    AtlasError,
>)
    requires
        within(spans@, chars@.len()),
        first <= spans@.len(),
        k < FIELD_LINES,
    ensures
        value == index_at(cut(chars@, spans@).skip(first as int), k as int),
{
    if spans.len() - first <= k {
        return Err(AtlasError::TruncatedRecord);
    }
    match payload(line_at(chars, spans, first + k), INDEX_PREFIX) {
        None => Err(AtlasError::InvalidLine),
        Some(rest) => match parse_i16(trim(rest)) {
            Some(value) => Ok(value),
            None => Err(AtlasError::InvalidNumericField),
        },
    }
}

/// Reads the six fields of a region from the line at place `first` on.
fn read_texture(chars: &[char], spans: &Vec<Span>, first: usize) -> (texture: Result<
    Texture,
    AtlasError,
>)
    requires
        within(spans@, chars@.len()),
        first <= spans@.len(),
    ensures
        texture == texture_of(cut(chars@, spans@).skip(first as int)),
{
    reveal(texture_of);
    let rotate = match read_rotate(chars, spans, first, 0) {
        Ok(value) => value,
        Err(e) => {
            return Err(e);
        },
    };
    let xy = match read_pair_field(chars, spans, first, 1, XY_PREFIX) {
        Ok(value) => value,
        Err(e) => {
            return Err(e);
        },
    };
    let size = match read_pair_field(chars, spans, first, 2, SIZE_PREFIX) {
        Ok(value) => value,
        Err(e) => {
            return Err(e);
        },
    };
    let orig = match read_pair_field(chars, spans, first, 3, ORIG_PREFIX) {
        Ok(value) => value,
        Err(e) => {
            return Err(e);
        },
    };
    let offset = match read_pair_field(chars, spans, first, 4, OFFSET_PREFIX) {
        Ok(value) => value,
        Err(e) => {
            return Err(e);
        },
    };
    let index = match read_index(chars, spans, first, 5) {
        Ok(value) => value,
        Err(e) => {
            return Err(e);
        },
    };
    Ok(Texture { rotate, xy, size, orig, offset, index })
}

/// The lines before place `stop` hold no field, and the line there does
/// or is the end.
pub proof fn lemma_plain_lines(lines: Seq<Seq<char>>, stop: int)
    requires
        0 <= stop <= lines.len(),
        forall|j: int| 0 <= j < stop ==> !is_indented(lines[j]),
        stop == lines.len() || is_indented(lines[stop]),
    ensures
        plain_lines(lines) == stop,
    decreases stop,
{
    if stop > 0 {
        let rest = lines.drop_first();
        assert(!is_indented(lines[0]));
        assert forall|j: int| 0 <= j < stop - 1 implies !is_indented(rest[j]) by {
            assert(rest[j] == lines[j + 1]);
        }
        lemma_plain_lines(rest, stop - 1);
    }
}

/// Looks from the line at place `from` on for the next line that holds a
/// field; the number of lines is returned where there is none.
fn next_texture(chars: &[char], spans: &Vec<Span>, from: usize) -> (first: usize)
    requires
        within(spans@, chars@.len()),
        from <= spans@.len(),
    ensures
        from <= first <= spans@.len(),
        first - from == plain_lines(cut(chars@, spans@).skip(from as int)),
{
    let ghost lines = cut(chars@, spans@).skip(from as int);
    let mut i: usize = from;
    while i < spans.len()
        invariant
            from <= i <= spans@.len(),
            within(spans@, chars@.len()),
            lines == cut(chars@, spans@).skip(from as int),
            forall|j: int| 0 <= j < i - from ==> !is_indented(lines[j]),
        decreases spans@.len() - i,
    {
        let line: &[char] = line_at(chars, spans, i);
        assert(line@ == lines[i - from]);
        if line.len() > 0 && (line[0] == '\t' || line[0] == ' ') {
            proof {
                lemma_plain_lines(lines, i - from);
            }
            return i;
        }
        i += 1;
    }
    proof {
        lemma_plain_lines(lines, i - from);
    }
    i
}

/// A region's name: the line just before its fields, or nothing where its
/// fields open the text or follow another region's at once.
pub open spec fn name_before(lines: Seq<Seq<char>>, from: int, first: int) -> Seq<char> {
    if first > from {
        lines[first - 1]
    } else {
        Seq::empty()
    }
}

/// A texture takes six lines.
proof fn lemma_texture_takes_six_lines(block: Seq<Seq<char>>)
    ensures
        texture_of(block) is Ok ==> block.len() >= FIELD_LINES,
{
    reveal(texture_of);
}

/// What the regions from the line at place `from` on are, once the first
/// field line is found at place `first`.
proof fn lemma_records_from(lines: Seq<Seq<char>>, from: int, first: int)
    requires
        0 <= from <= first < lines.len(),
        first - from == plain_lines(lines.skip(from)),
    ensures
        records_of(lines.skip(from)) == match texture_of(lines.skip(first)) {
            Err(e) => Err::<Seq<Entry>, AtlasError>(e),
            Ok(texture) => match records_of(lines.skip(first + FIELD_LINES as int)) {
                Err(e) => Err(e),
                Ok(rest) => Ok(seq![(name_before(lines, from, first), texture)] + rest),
            },
        },
{
    let here = lines.skip(from);
    assert(here.skip(first - from) =~= lines.skip(first));
    lemma_texture_takes_six_lines(lines.skip(first));
    if first + FIELD_LINES <= lines.len() {
        assert(here.skip(first - from + FIELD_LINES as int) =~= lines.skip(
            first + FIELD_LINES as int,
        ));
    }
    if first > from {
        assert(here[first - from - 1] == lines[first - 1]);
    }
}

/// The regions read so far, and then one more.
proof fn lemma_one_more_record(done: Seq<Entry>, entry: Entry, rest: Seq<Entry>)
    ensures
        done + (seq![entry] + rest) == done.push(entry) + rest,
        collect(done.push(entry)) == put(collect(done), entry.0, entry.1),
{
    assert(done + (seq![entry] + rest) =~= done.push(entry) + rest);
    assert(done.push(entry).drop_last() =~= done);
}

impl Atlas {
    /// Reads an atlas description.
    ///
    /// The text is taken line by line. Lines that start without white
    /// space are passed over until a line that starts with a tab or a
    /// space is met: that line opens a region's fields, and the line just
    /// before it is the region's name. Six field lines are read in the
    /// order `rotate`, `xy`, `size`, `orig`, `offset`, `index`; of each,
    /// the white space around it and as many bytes as its name is long are
    /// cut off, and the rest is read as a truth value, a pair or a number.
    /// The name itself is not compared. A region named like an earlier one
    /// takes its place. The end of the text ends the atlas.
    pub fn parse(text: &str) -> (parsed: Result<Atlas, AtlasError>)
        ensures
            match records_of(lines_of(text@)) {
                Ok(records) => parsed matches Ok(atlas) && atlas@ == collect(records)
                    && atlas.wf(),
                Err(e) => parsed matches Err(x) && x == e,
            },
    {
        let chars: Vec<char> = to_chars(text);
        let spans: Vec<Span> = split_lines(chars.as_slice());
        let ghost lines = lines_of(text@);
        let mut atlas = Atlas::new();
        let ghost mut done: Seq<Entry> = Seq::empty();
        let mut from: usize = 0;
        assert(lines.skip(0) =~= lines);
        assert(done + Seq::<Entry>::empty() =~= done);
        loop
            invariant
                chars@ == text@,
                within(spans@, chars@.len()),
                lines == cut(chars@, spans@),
                lines == lines_of(text@),
                from <= spans@.len(),
                atlas@ == collect(done),
                atlas.wf(),
                records_of(lines) == match records_of(lines.skip(from as int)) {
                    Ok(rest) => Ok::<Seq<Entry>, AtlasError>(done + rest),
                    Err(e) => Err(e),
                },
            ensures
                lines == lines_of(text@),
                records_of(lines) == Ok::<Seq<Entry>, AtlasError>(done),
                atlas@ == collect(done),
                atlas.wf(),
            decreases spans@.len() - from,
        {
            let first: usize = next_texture(chars.as_slice(), &spans, from);
            if first >= spans.len() {
                assert(records_of(lines.skip(from as int)) == Ok::<Seq<Entry>, AtlasError>(
                    Seq::empty(),
                ));
                assert(done + Seq::<Entry>::empty() =~= done);
                break ;
            }
            proof {
                lemma_records_from(lines, from as int, first as int);
                lemma_texture_takes_six_lines(lines.skip(first as int));
            }
            let texture = match read_texture(chars.as_slice(), &spans, first) {
                Ok(texture) => texture,
                Err(e) => {
                    return Err(e);
                },
            };
            let name: String = if first > from {
                let span: Span = spans[first - 1];
                text.substring_char(span.start, span.end).to_owned()
            } else {
                String::new()
            };
            assert(name@ == name_before(lines, from as int, first as int));
            proof {
                match records_of(lines.skip(first + FIELD_LINES as int)) {
                    Ok(rest) => {
                        lemma_one_more_record(done, (name@, texture), rest);
                    },
                    Err(_) => {
                        lemma_one_more_record(done, (name@, texture), Seq::empty());
                    },
                }
                done = done.push((name@, texture));
            }
            atlas.insert(name, texture);
            from = first + FIELD_LINES;
        }
        Ok(atlas)
    }
}

/// What was put under a name is what stands under it afterwards: the
/// later of two textures under one name wins. The atlas grows by one where
/// the name is new, and not at all where it is not.
pub proof fn lemma_put_then_found(entries: Seq<Entry>, name: Seq<char>, texture: Texture)
    ensures
        first_position(names_of(put(entries, name, texture)), name) matches Some(k) && put(
            entries,
            name,
            texture,
        )[k] == (name, texture),
        put(entries, name, texture).len() == match first_position(names_of(entries), name) {
            Some(_) => entries.len(),
            None => entries.len() + 1,
        },
{
    lemma_first_position(names_of(entries), name);
    let after = put(entries, name, texture);
    let k = match first_position(names_of(entries), name) {
        Some(k) => k,
        None => entries.len() as int,
    };
    assert(names_of(after)[k] == name);
    assert forall|j: int| 0 <= j < k implies names_of(after)[j] != name by {
        assert(names_of(after)[j] == names_of(entries)[j]);
    }
    assert(is_first_at(names_of(after), name, k));
    lemma_first_position(names_of(after), name);
}

/// Putting a texture under one name leaves every other name where it was,
/// with the texture it had.
pub proof fn lemma_put_keeps_others(
    entries: Seq<Entry>,
    name: Seq<char>,
    texture: Texture,
    other: Seq<char>,
)
    requires
        other != name,
    ensures
        first_position(names_of(put(entries, name, texture)), other) == first_position(
            names_of(entries),
            other,
        ),
        first_position(names_of(entries), other) matches Some(k) ==> put(entries, name, texture)[k]
            == entries[k],
{
    lemma_first_position(names_of(entries), name);
    lemma_first_position(names_of(entries), other);
    let after = put(entries, name, texture);
    match first_position(names_of(entries), other) {
        Some(k) => {
            assert(names_of(entries)[k] == other);
            assert(names_of(after)[k] == other);
            assert forall|j: int| 0 <= j < k implies names_of(after)[j] != other by {
                assert(names_of(entries)[j] != other);
                if names_of(after)[j] != names_of(entries)[j] {
                    assert(names_of(after)[j] == name);
                }
            }
            assert(is_first_at(names_of(after), other, k));
            lemma_first_position(names_of(after), other);
        },
        None => {
            assert forall|j: int| 0 <= j < names_of(after).len() implies names_of(after)[j]
                != other by {
                if j < entries.len() {
                    assert(names_of(entries)[j] != other);
                    if names_of(after)[j] != names_of(entries)[j] {
                        assert(names_of(after)[j] == name);
                    }
                } else {
                    assert(names_of(after)[j] == name);
                }
            }
            lemma_first_position(names_of(after), other);
            if first_position(names_of(after), other) is Some {
                let k = first_position(names_of(after), other)->0;
                assert(names_of(after)[k] == other);
            }
        },
    }
}

/// Records of which no two share a name all stay, each in its place: a
/// text that describes `n` regions under `n` names reads as an atlas of
/// exactly those `n` regions.
pub proof fn lemma_distinct_records_all_stay(records: Seq<Entry>)
    requires
        distinct(names_of(records)),
    ensures
        collect(records) == records,
        collect(records).len() == records.len(),
    decreases records.len(),
{
    if records.len() > 0 {
        let before = records.drop_last();
        let last = records.last();
        assert forall|i: int, j: int| 0 <= i < j < before.len() implies names_of(before)[i]
            != names_of(before)[j] by {
            assert(names_of(before)[i] == names_of(records)[i]);
            assert(names_of(before)[j] == names_of(records)[j]);
        }
        lemma_distinct_records_all_stay(before);
        lemma_first_position(names_of(before), last.0);
        assert forall|j: int| 0 <= j < before.len() implies names_of(before)[j] != last.0 by {
            assert(names_of(before)[j] == names_of(records)[j]);
            assert(last.0 == names_of(records)[records.len() - 1]);
        }
        assert(before.push(last) =~= records);
    } else {
        assert(collect(records) =~= records);
    }
}

/// However often a name occurs among the records, the atlas made of them
/// holds it once.
pub proof fn lemma_collected_names_are_distinct(records: Seq<Entry>)
    ensures
        distinct(names_of(collect(records))),
    decreases records.len(),
{
    if records.len() > 0 {
        let before = collect(records.drop_last());
        let last = records.last();
        lemma_collected_names_are_distinct(records.drop_last());
        lemma_first_position(names_of(before), last.0);
        let after = put(before, last.0, last.1);
        match first_position(names_of(before), last.0) {
            Some(k) => {
                assert(names_of(after) =~= names_of(before));
            },
            None => {
                assert forall|i: int, j: int| 0 <= i < j < names_of(after).len() implies names_of(
                    after,
                )[i] != names_of(after)[j] by {
                    assert(names_of(after)[i] == names_of(before)[i]);
                    if j < before.len() {
                        assert(names_of(after)[j] == names_of(before)[j]);
                    }
                }
            },
        }
    }
}

/// A pair is read from what stands before its comma and what stands
/// after it, each without the white space around it: so white space next
/// to the comma, before the first number or after the second changes
/// nothing.
pub proof fn lemma_pair_reads_trimmed_halves(first: Seq<char>, second: Seq<char>)
    requires
        !first.contains(','),
        !second.contains(','),
    ensures
        pair_of(first + seq![','] + second) == match (
            u16_of(trimmed(first)),
            u16_of(trimmed(second)),
        ) {
            (Some(a), Some(b)) => Some((a, b)),
            _ => None::<(u16, u16)>,
        },
{
    let s = first + seq![','] + second;
    let comma = first.len() as int;
    assert forall|j: int| 0 <= j < comma implies s[j] != ',' by {
        assert(s[j] == first[j]);
        assert(first.contains(first[j]));
    }
    assert(s[comma] == ',');
    lemma_find_char(s, ',', comma);
    assert(s.take(comma) =~= first);
    let rest = s.skip(comma + 1);
    assert(rest =~= second);
    assert forall|j: int| 0 <= j < second.len() implies second[j] != ',' by {
        assert(second.contains(second[j]));
    }
    lemma_find_char(second, ',', second.len() as int);
    assert(second.take(second.len() as int) =~= second);
}

} // verus!
