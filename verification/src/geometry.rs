//! Quad geometry for an atlas: four vertices and two triangles per region,
//! in the order of the atlas, and the table that finds a region's quad by
//! its name.
//!
//! Texture coordinates are kept as exact fractions of the atlas image's
//! width and height; turning them into floating point is left to whoever
//! hands them to a graphics API. A vertex position is whatever type the
//! caller draws with: nothing here computes on it.

use vstd::prelude::*;
use crate::atlas::{first_position, lemma_first_position, is_first_at, names_of, Atlas, Entry, Texture};

verus! {

/// The fraction `num / den`.
#[derive(Clone, Copy, PartialEq, Eq, Debug, Structural)]
pub struct Ratio {
    pub num: i64,
    pub den: u32,
}

/// A point of the atlas image as the sampler sees it: `u` runs from the
/// left edge, `v` from the bottom edge, each from 0 to 1 across the image.
#[derive(Clone, Copy, PartialEq, Eq, Debug, Structural)]
pub struct TexCoord {
    pub u: Ratio,
    pub v: Ratio,
}

/// One corner of a quad.
#[derive(Debug)]
pub struct Vertex<P> {
    pub position: P,
    pub tex_coords: TexCoord,
}

impl<P: Copy> Clone for Vertex<P> {
    fn clone(&self) -> (copy: Self)
        ensures
            copy == *self,
    {
        Vertex { position: self.position, tex_coords: self.tex_coords }
    }
}

impl<P: Copy> Copy for Vertex<P> {

}

/// Where a region's quad lies in the vertex and index arrays.
#[derive(Clone, Copy, PartialEq, Eq, Debug, Structural)]
pub struct Slot {
    /// Index of the first of its 4 vertices.
    pub vertex_base: usize,
    /// Index of the first of its 6 indices.
    pub index_base: usize,
}

/// Why no geometry was built.
#[derive(Clone, Copy, PartialEq, Eq, Debug, Structural)]
pub enum GeometryError {
    /// The atlas image has no width or no height.
    ZeroDimension,
}

impl GeometryError {
    /// The error in words.
    pub fn message(&self) -> (text: String)
        ensures
            text@ == "atlas image has a zero dimension"@,
    {
        match self {
            GeometryError::ZeroDimension => "atlas image has a zero dimension".to_owned(),
        }
    }
}

/// The sampling point of the pixel position (`x`, `y`) in an image of
/// `width` by `height` pixels. Pixel rows count from the top, sampling from
/// the bottom, so `v` is what is left of the height below `y`.
pub open spec fn tex_coords_of(x: int, y: int, width: u32, height: u32) -> TexCoord {
    TexCoord {
        u: Ratio { num: x as i64, den: width },
        v: Ratio { num: (height - y) as i64, den: height },
    }
}

/// The four corners of a region's rectangle in the atlas image: top-left,
/// top-right, bottom-right, bottom-left, by the size as stored.
pub open spec fn corners_of(texture: Texture, width: u32, height: u32) -> Seq<TexCoord> {
    let x = texture.xy.0 as int;
    let y = texture.xy.1 as int;
    let w = texture.size.0 as int;
    let h = texture.size.1 as int;
    seq![
        tex_coords_of(x, y, width, height),
        tex_coords_of(x + w, y, width, height),
        tex_coords_of(x + w, y + h, width, height),
        tex_coords_of(x, y + h, width, height),
    ]
}

/// The texture coordinates of a region's four vertices. A region stored
/// turned takes its corners one place on, starting from the bottom-left, so
/// that positions laid out as for an upright image sample it upright.
pub open spec fn quad_of(texture: Texture, width: u32, height: u32) -> Seq<TexCoord> {
    let c = corners_of(texture, width, height);
    if texture.rotate {
        seq![c[3], c[0], c[1], c[2]]
    } else {
        c
    }
}

/// The corners that the six indices of a quad name: two triangles that
/// share the diagonal from corner 0 to corner 2.
pub open spec fn corner_order() -> Seq<int> {
    seq![0, 1, 2, 2, 3, 0]
}

/// The vertex array for `entries`: region `k` holds the vertices from `4k`
/// on, each at `position`.
pub open spec fn vertices_for<P>(entries: Seq<Entry>, width: u32, height: u32, position: P) -> Seq<
    Vertex<P>,
> {
    Seq::new(
        4 * entries.len(),
        |i: int| Vertex { position, tex_coords: quad_of(entries[i / 4].1, width, height)[i % 4] },
    )
}

/// The index array for `n` regions: region `k` holds the indices from `6k`
/// on, and they name its own vertices.
pub open spec fn indices_for(n: nat) -> Seq<u32> {
    Seq::new(6 * n, |i: int| (4 * (i / 6) + corner_order()[i % 6]) as u32)
}

/// The lookup table for `names`: the region at place `k` has its vertices
/// from `4k` and its indices from `6k`.
pub open spec fn table_for(names: Seq<Seq<char>>) -> Seq<(Seq<char>, Slot)> {
    Seq::new(
        names.len(),
        |k: int| (names[k], Slot { vertex_base: (4 * k) as usize, index_base: (6 * k) as usize }),
    )
}

/// The names of a table's rows, in order.
pub open spec fn keys_of(table: Seq<(Seq<char>, Slot)>) -> Seq<Seq<char>> {
    Seq::new(table.len(), |k: int| table[k].0)
}

/// The slot that `table` gives for `name`: that of the first row of that
/// name.
pub open spec fn slot_of(table: Seq<(Seq<char>, Slot)>, name: Seq<char>) -> Option<Slot> {
    match first_position(keys_of(table), name) {
        Some(k) => Some(table[k].1),
        None => None,
    }
}

/// One row of the lookup table.
struct Row {
    name: String,
    slot: Slot,
}

/// From a region's name to the place of its quad.
pub struct AtlasIndex {
    rows: Vec<Row>,
}

impl View for AtlasIndex {
    type V = Seq<(Seq<char>, Slot)>;

    closed spec fn view(&self) -> Seq<(Seq<char>, Slot)> {
        Seq::new(self.rows@.len(), |k: int| (self.rows@[k].name@, self.rows@[k].slot))
    }
}

impl AtlasIndex {
    /// Every quad that the table names lies within a vertex array of
    /// `vertices` entries.
    pub open spec fn covers(&self, vertices: nat) -> bool {
        forall|k: int| 0 <= k < self@.len() ==> (#[trigger] self@[k]).1.vertex_base + 4 <= vertices
    }

    /// Whether every quad that the table names lies within a vertex array
    /// of `vertices` entries.
    pub fn fits(&self, vertices: usize) -> (fits: bool)
        ensures
            fits == self.covers(vertices as nat),
    {
        let mut k: usize = 0;
        while k < self.rows.len()
            invariant
                k <= self.rows.len(),
                forall|j: int| 0 <= j < k ==> (#[trigger] self@[j]).1.vertex_base + 4 <= vertices,
            decreases self.rows.len() - k,
        {
            let base: usize = self.rows[k].slot.vertex_base;
            if vertices < 4 || base > vertices - 4 {
                assert(self@[k as int].1.vertex_base + 4 > vertices);
                return false;
            }
            k += 1;
        }
        true
    }

    /// The number of rows.
    pub fn len(&self) -> (n: usize)
        ensures
            n == self@.len(),
    {
        self.rows.len()
    }

    /// The slot of the region called `name`; `None` where the atlas had no
    /// region of that name.
    pub fn lookup(&self, name: &str) -> (slot: Option<Slot>)
        ensures
            slot == slot_of(self@, name@),
    {
        let key: String = name.to_owned();
        let mut k: usize = 0;
        while k < self.rows.len()
            invariant
                k <= self.rows.len(),
                key@ == name@,
                forall|j: int| 0 <= j < k ==> keys_of(self@)[j] != name@,
            decreases self.rows.len() - k,
        {
            if self.rows[k].name == key {
                proof {
                    assert(is_first_at(keys_of(self@), name@, k as int));
                    lemma_first_position(keys_of(self@), name@);
                }
                return Some(self.rows[k].slot);
            }
            k += 1;
        }
        proof {
            lemma_first_position(keys_of(self@), name@);
        }
        None
    }
}

/// What `build` makes of an atlas: the lookup table under the name
/// `textures`, the vertex array and the index array.
pub struct AtlasItems<P> {
    pub textures: AtlasIndex,
    pub vertices: Vec<Vertex<P>>,
    pub indices: Vec<u32>,
}

/// The sampling point of the pixel position (`x`, `y`), whatever the image.
fn sample(x: u32, y: u32, width: u32, height: u32) -> (coords: TexCoord)
    ensures
        coords == tex_coords_of(x as int, y as int, width, height),
{
    TexCoord {
        u: Ratio { num: x as i64, den: width },
        v: Ratio { num: height as i64 - y as i64, den: height },
    }
}

/// The sampling point of the pixel position (`x`, `y`) in an image of
/// `width` by `height` pixels: `x / width` from the left and
/// `1 - y / height` from the bottom. An image without width or height has
/// no sampling points.
pub fn to_tex_coords(x: u32, y: u32, width: u32, height: u32) -> (coords: Result<
    TexCoord,
    GeometryError,
>)
    ensures
        coords == if width == 0 || height == 0 {
            Err::<TexCoord, GeometryError>(GeometryError::ZeroDimension)
        } else {
            Ok(tex_coords_of(x as int, y as int, width, height))
        },
{
    if width == 0 || height == 0 {
        Err(GeometryError::ZeroDimension)
    } else {
        Ok(sample(x, y, width, height))
    }
}

/// The atlas is small enough to build geometry for: its vertices can be
/// counted in the index type, and its indices in the machine's word.
pub open spec fn buildable(regions: nat) -> bool {
    4 * regions <= u32::MAX && 6 * regions <= usize::MAX
}

/// Whether `build` takes this atlas.
pub fn can_build(atlas: &Atlas) -> (fits: bool)
    ensures
        fits == buildable(atlas@.len()),
{
    let n: usize = atlas.len();
    n <= 0x3FFF_FFFF && n <= usize::MAX / 6
}

/// Builds the geometry of `atlas` for an atlas image of `width` by `height`
/// pixels: for the region at place `k`, the four vertices from `4k` on and
/// the six indices from `6k` on, and a row in the lookup table. Every
/// vertex starts at `position`.
///
/// Fails only where the image has no width or no height. The atlas must be
/// small enough for its indices to fit the index type.
pub fn build<P: Copy>(atlas: &Atlas, width: u32, height: u32, position: P) -> (built: Result<
    AtlasItems<P>,
    GeometryError,
>)
    requires
        buildable(atlas@.len()),
    ensures
        built is Err <==> width == 0 || height == 0,
        built matches Err(e) ==> e == GeometryError::ZeroDimension,
        built matches Ok(items) ==> {
            &&& items.textures@ == table_for(names_of(atlas@))
            &&& items.textures.covers(items.vertices@.len())
            &&& items.vertices@ == vertices_for(atlas@, width, height, position)
            &&& items.vertices@.len() == 4 * atlas@.len()
            &&& items.indices@ == indices_for(atlas@.len())
            &&& items.indices@.len() == 6 * atlas@.len()
            &&& forall|i: int|
                0 <= i < items.indices@.len() ==> 0 <= #[trigger] items.indices@[i] < 4
                    * atlas@.len()
        },
{
    if width == 0 || height == 0 {
        return Err(GeometryError::ZeroDimension);
    }
    let n: usize = atlas.len();
    let mut rows: Vec<Row> = Vec::new();
    let mut vertices: Vec<Vertex<P>> = Vec::new();
    let mut indices: Vec<u32> = Vec::new();
    let mut k: usize = 0;
    while k < n
        invariant
            k <= n,
            n == atlas@.len(),
            4 * n <= u32::MAX,
            6 * n <= usize::MAX,
            rows@.len() == k,
            forall|j: int|
                0 <= j < k ==> (#[trigger] rows@[j].name@, rows@[j].slot) == table_for(
                    names_of(atlas@),
                )[j],
            vertices@.len() == 4 * k,
            forall|i: int|
                0 <= i < 4 * k ==> #[trigger] vertices@[i] == vertices_for(
                    atlas@,
                    width,
                    height,
                    position,
                )[i],
            indices@.len() == 6 * k,
            forall|i: int| 0 <= i < 6 * k ==> #[trigger] indices@[i] == indices_for(n as nat)[i],
        decreases n - k,
    {
        let region = match atlas.region(k) {
            Some(region) => region,
            None => unreached(),
        };
        let t: Texture = region.texture;
        let x: u32 = t.xy.0 as u32;
        let y: u32 = t.xy.1 as u32;
        let w: u32 = t.size.0 as u32;
        let h: u32 = t.size.1 as u32;
        let tex0 = sample(x, y, width, height);
        let tex1 = sample(x + w, y, width, height);
        let tex2 = sample(x + w, y + h, width, height);
        let tex3 = sample(x, y + h, width, height);
        if t.rotate {
            vertices.push(Vertex { position, tex_coords: tex3 });
            vertices.push(Vertex { position, tex_coords: tex0 });
            vertices.push(Vertex { position, tex_coords: tex1 });
            vertices.push(Vertex { position, tex_coords: tex2 });
        } else {
            vertices.push(Vertex { position, tex_coords: tex0 });
            vertices.push(Vertex { position, tex_coords: tex1 });
            vertices.push(Vertex { position, tex_coords: tex2 });
            vertices.push(Vertex { position, tex_coords: tex3 });
        }
        rows.push(Row { name: region.name.clone(), slot: Slot { vertex_base: 4 * k, index_base: 6 * k } });
        let first: u32 = (4 * k) as u32;
        indices.push(first);
        indices.push(first + 1);
        indices.push(first + 2);
        indices.push(first + 2);
        indices.push(first + 3);
        indices.push(first);
        k += 1;
    }
    let textures = AtlasIndex { rows };
    assert(textures@ =~= table_for(names_of(atlas@)));
    assert(vertices@ =~= vertices_for(atlas@, width, height, position));
    assert(indices@ =~= indices_for(atlas@.len()));
    Ok(AtlasItems { textures, vertices, indices })
}

/// A region stored turned takes the corners of the same region stored
/// upright, each one place further on: corner `i` of the turned quad is
/// corner `i + 3`, counted round the four, of the upright one.
pub proof fn lemma_turned_quad_is_shifted(texture: Texture, width: u32, height: u32, i: int)
    requires
        0 <= i < 4,
    ensures
        quad_of(Texture { rotate: true, ..texture }, width, height)[i] == quad_of(
            Texture { rotate: false, ..texture },
            width,
            height,
        )[(i + 3) % 4],
{
}

/// The geometry of `n` regions has `4n` vertices and `6n` indices.
pub proof fn lemma_geometry_counts<P>(entries: Seq<Entry>, width: u32, height: u32, position: P)
    ensures
        vertices_for(entries, width, height, position).len() == 4 * entries.len(),
        indices_for(entries.len()).len() == 6 * entries.len(),
{
}

/// The six indices of the region at place `k` name that region's own four
/// vertices, all four of them and no other: they are `4k`, `4k + 1`,
/// `4k + 2`, `4k + 2`, `4k + 3` and `4k`. Each is a vertex of the array.
pub proof fn lemma_indices_name_own_vertices(n: nat, k: int)
    requires
        0 <= k < n,
        4 * n <= u32::MAX,
    ensures
        indices_for(n).subrange(6 * k, 6 * k + 6) == seq![
            (4 * k) as u32,
            (4 * k + 1) as u32,
            (4 * k + 2) as u32,
            (4 * k + 2) as u32,
            (4 * k + 3) as u32,
            (4 * k) as u32,
        ],
        forall|j: int|
            0 <= j < 6 ==> 4 * k <= (#[trigger] indices_for(n).subrange(6 * k, 6 * k + 6)[j]) < 4
                * k + 4 <= 4 * n,
{
    let own = indices_for(n).subrange(6 * k, 6 * k + 6);
    assert forall|j: int| 0 <= j < 6 implies own[j] == (4 * k + corner_order()[j]) as u32 by {
        assert((6 * k + j) / 6 == k);
        assert((6 * k + j) % 6 == j);
    }
    assert(own =~= seq![
        (4 * k) as u32,
        (4 * k + 1) as u32,
        (4 * k + 2) as u32,
        (4 * k + 2) as u32,
        (4 * k + 3) as u32,
        (4 * k) as u32,
    ]);
}

/// A region that lies within the atlas image samples within it: each
/// corner's coordinates are fractions from 0 to 1.
pub proof fn lemma_region_inside_samples_inside(texture: Texture, width: u32, height: u32, i: int)
    requires
        0 <= i < 4,
        texture.inside(width, height),
    ensures
        0 <= quad_of(texture, width, height)[i].u.num <= width,
        quad_of(texture, width, height)[i].u.den == width,
        0 <= quad_of(texture, width, height)[i].v.num <= height,
        quad_of(texture, width, height)[i].v.den == height,
{
}

} // verus!
