//! The per-frame update: the sprites of one instant of an animation, found
//! by name in the lookup table and laid onto the geometry.
//!
//! There are two ways to show a frame. `apply` moves the corners of each
//! sprite's quad to where the frame places them, and the whole vertex
//! array is drawn. `draws` leaves the vertices alone and lists, for each
//! sprite, the six indices to draw it with. A sprite whose name the table
//! does not hold is passed over by both.

use vstd::prelude::*;
use crate::geometry::{slot_of, AtlasIndex, Slot, Vertex};

verus! {

/// One named attachment of a frame, and where or how the frame places it.
pub struct Sprite<T> {
    pub attachment: String,
    pub placement: T,
}

/// One sprite to draw: its place in the frame, and the first of the six
/// indices of its quad.
#[derive(Clone, Copy, PartialEq, Eq, Debug, Structural)]
pub struct Draw {
    pub sprite: usize,
    pub index_base: usize,
}

/// `buffer` with the positions of the four vertices from `base` on taken
/// from `corners`. Texture coordinates stay.
pub open spec fn with_corners<P>(buffer: Seq<Vertex<P>>, base: int, corners: Seq<P>) -> Seq<
    Vertex<P>,
> {
    Seq::new(
        buffer.len(),
        |i: int|
            if base <= i < base + 4 {
                Vertex { position: corners[i - base], tex_coords: buffer[i].tex_coords }
            } else {
                buffer[i]
            },
    )
}

/// `buffer` after one sprite: its quad moved to `corners` where `table`
/// knows `name`, and nothing changed where it does not.
pub open spec fn placed<P>(
    buffer: Seq<Vertex<P>>,
    table: Seq<(Seq<char>, Slot)>,
    name: Seq<char>,
    corners: Seq<P>,
) -> Seq<Vertex<P>> {
    match slot_of(table, name) {
        Some(slot) => with_corners(buffer, slot.vertex_base as int, corners),
        None => buffer,
    }
}

/// `buffer` after the sprites of `frame`, each given by its name and its
/// four corners, one after the other.
pub open spec fn applied<P>(
    buffer: Seq<Vertex<P>>,
    table: Seq<(Seq<char>, Slot)>,
    frame: Seq<(Seq<char>, Seq<P>)>,
) -> Seq<Vertex<P>>
    decreases frame.len(),
{
    if frame.len() == 0 {
        buffer
    } else {
        placed(applied(buffer, table, frame.drop_last()), table, frame.last().0, frame.last().1)
    }
}

/// The sprites of a frame that places each by four corners, as names and
/// corners.
pub open spec fn corners_of_frame<P>(frame: Seq<Sprite<[P; 4]>>) -> Seq<(Seq<char>, Seq<P>)> {
    Seq::new(frame.len(), |i: int| (frame[i].attachment@, frame[i].placement@))
}

/// The names of a frame's sprites.
pub open spec fn attachments_of<T>(frame: Seq<Sprite<T>>) -> Seq<Seq<char>> {
    Seq::new(frame.len(), |i: int| frame[i].attachment@)
}

/// The draws for the sprites called `names`, in their order: one for each
/// name that `table` knows.
pub open spec fn draws_of(table: Seq<(Seq<char>, Slot)>, names: Seq<Seq<char>>) -> Seq<Draw>
    decreases names.len(),
{
    if names.len() == 0 {
        Seq::empty()
    } else {
        let before = draws_of(table, names.drop_last());
        match slot_of(table, names.last()) {
            Some(slot) => before.push(
                Draw { sprite: (names.len() - 1) as usize, index_base: slot.index_base },
            ),
            None => before,
        }
    }
}

/// Moves the four vertices from `base` on to `corners`.
fn place<P: Copy>(buffer: &mut Vec<Vertex<P>>, base: usize, corners: &[P; 4])
    requires
        base + 4 <= old(buffer)@.len(),
    ensures
        final(buffer)@ == with_corners(old(buffer)@, base as int, corners@),
{
    let len: usize = buffer.len();
    let mut c: usize = 0;
    while c < 4
        invariant
            c <= 4,
            base + 4 <= len,
            len == buffer@.len(),
            buffer@.len() == old(buffer)@.len(),
            forall|i: int|
                0 <= i < buffer@.len() ==> #[trigger] buffer@[i] == if base <= i < base + c {
                    Vertex { position: corners@[i - base], tex_coords: old(buffer)@[i].tex_coords }
                } else {
                    old(buffer)@[i]
                },
        decreases 4 - c,
    {
        let tex_coords = buffer[base + c].tex_coords;
        buffer.set(base + c, Vertex { position: corners[c], tex_coords });
        c += 1;
    }
    assert(buffer@ =~= with_corners(old(buffer)@, base as int, corners@));
}

/// Lays a frame onto the vertex array: the quad of each sprite that
/// `lookup` knows takes the sprite's four corners as its positions, in the
/// order of the frame. A sprite that `lookup` does not know is passed
/// over; a quad that no sprite names keeps the positions it had.
///
/// `buffer` must be the vertex array that `lookup` was built with, or one
/// as long.
pub fn apply<P: Copy>(frame: &Vec<Sprite<[P; 4]>>, lookup: &AtlasIndex, buffer: &mut Vec<Vertex<P>>)
    requires
        lookup.covers(old(buffer)@.len()),
    ensures
        final(buffer)@ == applied(old(buffer)@, lookup@, corners_of_frame(frame@)),
        final(buffer)@.len() == old(buffer)@.len(),
{
    let ghost sprites = corners_of_frame(frame@);
    let mut s: usize = 0;
    while s < frame.len()
        invariant
            s <= frame@.len(),
            sprites == corners_of_frame(frame@),
            buffer@.len() == old(buffer)@.len(),
            lookup.covers(buffer@.len()),
            buffer@ == applied(old(buffer)@, lookup@, sprites.take(s as int)),
        decreases frame@.len() - s,
    {
        let sprite = &frame[s];
        proof {
            assert(sprites.take(s + 1).drop_last() =~= sprites.take(s as int));
            assert(sprites.take(s + 1).last() == (sprite.attachment@, sprite.placement@));
        }
        match lookup.lookup(sprite.attachment.as_str()) {
            Some(slot) => {
                proof {
                    lemma_slot_is_a_row(lookup@, sprite.attachment@);
                }
                place(buffer, slot.vertex_base, &sprite.placement);
            },
            None => {},
        }
        s += 1;
    }
    assert(sprites.take(s as int) =~= sprites);
}

/// The slot found for a name is the slot of one of the table's rows.
pub proof fn lemma_slot_is_a_row(table: Seq<(Seq<char>, Slot)>, name: Seq<char>)
    ensures
        slot_of(table, name) matches Some(slot) ==> exists|k: int|
            0 <= k < table.len() && (#[trigger] table[k]).1 == slot,
{
    crate::atlas::lemma_first_position(crate::geometry::keys_of(table), name);
}

/// Lists the draws of a frame: for each sprite that `lookup` knows, in the
/// order of the frame, its place in the frame and the start of its six
/// indices.
pub fn draws<T>(frame: &Vec<Sprite<T>>, lookup: &AtlasIndex) -> (list: Vec<Draw>)
    ensures
        list@ == draws_of(lookup@, attachments_of(frame@)),
{
    let ghost names = attachments_of(frame@);
    let mut list: Vec<Draw> = Vec::new();
    let mut s: usize = 0;
    while s < frame.len()
        invariant
            s <= frame@.len(),
            names == attachments_of(frame@),
            list@ == draws_of(lookup@, names.take(s as int)),
        decreases frame@.len() - s,
    {
        proof {
            assert(names.take(s + 1).drop_last() =~= names.take(s as int));
            assert(names.take(s + 1).last() == frame@[s as int].attachment@);
        }
        match lookup.lookup(frame[s].attachment.as_str()) {
            Some(slot) => {
                list.push(Draw { sprite: s, index_base: slot.index_base });
            },
            None => {},
        }
        s += 1;
    }
    assert(names.take(s as int) =~= names);
    list
}

/// A frame none of whose sprites the table knows changes nothing.
pub proof fn lemma_unknown_sprites_change_nothing<P>(
    buffer: Seq<Vertex<P>>,
    table: Seq<(Seq<char>, Slot)>,
    frame: Seq<(Seq<char>, Seq<P>)>,
)
    requires
        forall|i: int| 0 <= i < frame.len() ==> slot_of(table, (#[trigger] frame[i]).0) is None,
    ensures
        applied(buffer, table, frame) == buffer,
    decreases frame.len(),
{
    if frame.len() > 0 {
        let before = frame.drop_last();
        assert forall|i: int| 0 <= i < before.len() implies slot_of(
            table,
            (#[trigger] before[i]).0,
        ) is None by {
            assert(before[i] == frame[i]);
        }
        lemma_unknown_sprites_change_nothing(buffer, table, before);
        assert(slot_of(table, frame[frame.len() - 1].0) is None);
    }
}

/// A sprite that the table does not know may be left out of its frame:
/// the frame with it does what the frame without it does.
pub proof fn lemma_unknown_sprite_is_passed_over<P>(
    buffer: Seq<Vertex<P>>,
    table: Seq<(Seq<char>, Slot)>,
    frame: Seq<(Seq<char>, Seq<P>)>,
    at: int,
)
    requires
        0 <= at < frame.len(),
        slot_of(table, frame[at].0) is None,
    ensures
        applied(buffer, table, frame) == applied(buffer, table, frame.remove(at)),
    decreases frame.len(),
{
    if at == frame.len() - 1 {
        assert(frame.remove(at) =~= frame.drop_last());
    } else {
        lemma_unknown_sprite_is_passed_over(buffer, table, frame.drop_last(), at);
        assert(frame.remove(at).drop_last() =~= frame.drop_last().remove(at));
        assert(frame.remove(at).last() == frame.last());
    }
}

/// A frame leaves the vertex array as long as it was and every texture
/// coordinate as it was.
pub proof fn lemma_frames_keep_tex_coords<P>(
    buffer: Seq<Vertex<P>>,
    table: Seq<(Seq<char>, Slot)>,
    frame: Seq<(Seq<char>, Seq<P>)>,
)
    ensures
        applied(buffer, table, frame).len() == buffer.len(),
        forall|i: int|
            0 <= i < buffer.len() ==> (#[trigger] applied(buffer, table, frame)[i]).tex_coords
                == buffer[i].tex_coords,
    decreases frame.len(),
{
    if frame.len() > 0 {
        lemma_frames_keep_tex_coords(buffer, table, frame.drop_last());
    }
}

/// A vertex that lies in no quad that the frame names keeps its position.
pub proof fn lemma_unnamed_quads_stay<P>(
    buffer: Seq<Vertex<P>>,
    table: Seq<(Seq<char>, Slot)>,
    frame: Seq<(Seq<char>, Seq<P>)>,
    v: int,
)
    requires
        0 <= v < buffer.len(),
        forall|i: int|
            0 <= i < frame.len() ==> (slot_of(table, (#[trigger] frame[i]).0) matches Some(slot)
                ==> !(slot.vertex_base <= v < slot.vertex_base + 4)),
    ensures
        applied(buffer, table, frame)[v] == buffer[v],
    decreases frame.len(),
{
    if frame.len() > 0 {
        let before = frame.drop_last();
        assert forall|i: int| 0 <= i < before.len() implies (slot_of(
            table,
            (#[trigger] before[i]).0,
        ) matches Some(slot) ==> !(slot.vertex_base <= v < slot.vertex_base + 4)) by {
            assert(before[i] == frame[i]);
        }
        lemma_unnamed_quads_stay(buffer, table, before, v);
        lemma_frames_keep_tex_coords(buffer, table, before);
        let last = frame[frame.len() - 1];
        assert(slot_of(table, last.0) matches Some(slot) ==> !(slot.vertex_base <= v
            < slot.vertex_base + 4));
    }
}

} // verus!
