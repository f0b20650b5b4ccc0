use spine_render::atlas::{Atlas, Texture};
use spine_render::geometry::{build, to_tex_coords, GeometryError, Ratio, Slot, TexCoord};

fn head(rotate: bool) -> Texture {
    Texture {
        rotate,
        xy: (279, 75),
        size: (163, 179),
        orig: (163, 179),
        offset: (0, 0),
        index: -1,
    }
}

fn atlas_of(names: &[&str]) -> Atlas {
    let mut atlas = Atlas::new();
    for (k, name) in names.iter().enumerate() {
        let mut t = head(k % 2 == 1);
        t.xy = (10 * k as u16, 20 * k as u16);
        atlas.insert(name.to_string(), t);
    }
    atlas
}

fn as_floats(c: TexCoord) -> [f32; 2] {
    [c.u.num as f32 / c.u.den as f32, c.v.num as f32 / c.v.den as f32]
}

fn tc(x: i64, y: i64) -> TexCoord {
    TexCoord { u: Ratio { num: x, den: 1024 }, v: Ratio { num: 256 - y, den: 256 } }
}

#[test]
fn sampling_point_flips_the_rows() {
    assert_eq!(
        to_tex_coords(279, 75, 1024, 256),
        Ok(TexCoord { u: Ratio { num: 279, den: 1024 }, v: Ratio { num: 181, den: 256 } })
    );
    assert_eq!(to_tex_coords(0, 0, 8, 4), Ok(TexCoord { u: Ratio { num: 0, den: 8 }, v: Ratio { num: 4, den: 4 } }));
    assert_eq!(to_tex_coords(8, 4, 8, 4), Ok(TexCoord { u: Ratio { num: 8, den: 8 }, v: Ratio { num: 0, den: 4 } }));
    assert_eq!(to_tex_coords(9, 6, 8, 4), Ok(TexCoord { u: Ratio { num: 9, den: 8 }, v: Ratio { num: -2, den: 4 } }));
}

#[test]
fn sampling_point_of_an_image_without_size() {
    assert_eq!(to_tex_coords(1, 1, 0, 4), Err(GeometryError::ZeroDimension));
    assert_eq!(to_tex_coords(1, 1, 4, 0), Err(GeometryError::ZeroDimension));
    assert_eq!(to_tex_coords(0, 0, 0, 0), Err(GeometryError::ZeroDimension));
}

#[test]
fn first_vertex_of_head_samples_its_top_left() {
    let mut atlas = Atlas::new();
    atlas.insert("head".to_string(), head(false));
    let items = build(&atlas, 1024, 256, [0.0f32, 0.0]).ok().unwrap();
    let uv = as_floats(items.vertices[0].tex_coords);
    assert!((uv[0] - 279.0 / 1024.0).abs() < 1e-6);
    assert!((uv[1] - (1.0 - 75.0 / 256.0)).abs() < 1e-6);
    assert_eq!(items.vertices[0].position, [0.0, 0.0]);
}

#[test]
fn upright_region_takes_its_corners_in_order() {
    let mut atlas = Atlas::new();
    atlas.insert("head".to_string(), head(false));
    let items = build(&atlas, 1024, 256, 0u8).ok().unwrap();
    let got: Vec<TexCoord> = items.vertices.iter().map(|v| v.tex_coords).collect();
    assert_eq!(got, vec![tc(279, 75), tc(442, 75), tc(442, 254), tc(279, 254)]);
}

#[test]
fn turned_region_takes_its_corners_one_place_on() {
    let mut upright = Atlas::new();
    upright.insert("head".to_string(), head(false));
    let mut turned = Atlas::new();
    turned.insert("head".to_string(), head(true));
    let a = build(&upright, 1024, 256, 0u8).ok().unwrap();
    let b = build(&turned, 1024, 256, 0u8).ok().unwrap();
    for i in 0..4 {
        assert_eq!(b.vertices[i].tex_coords, a.vertices[(i + 3) % 4].tex_coords);
    }
    assert_eq!(b.vertices[0].tex_coords, tc(279, 254));
    assert_eq!(b.indices, a.indices);
}

#[test]
fn counts_and_indices_of_many_regions() {
    let names = ["a", "b", "c", "d", "e"];
    let atlas = atlas_of(&names);
    let items = build(&atlas, 512, 512, (0i32, 0i32)).ok().unwrap();
    let n = names.len();
    assert_eq!(items.vertices.len(), 4 * n);
    assert_eq!(items.indices.len(), 6 * n);
    assert_eq!(items.textures.len(), n);
    for (i, index) in items.indices.iter().enumerate() {
        assert!((*index as usize) < 4 * n);
        assert_eq!(*index as usize / 4, i / 6);
    }
    for k in 0..n {
        let b = 4 * k as u32;
        assert_eq!(&items.indices[6 * k..6 * k + 6], &[b, b + 1, b + 2, b + 2, b + 3, b]);
        assert_eq!(
            items.textures.lookup(names[k]),
            Some(Slot { vertex_base: 4 * k, index_base: 6 * k })
        );
    }
    assert_eq!(items.textures.lookup("f"), None);
    assert_eq!(items.textures.lookup(""), None);
}

#[test]
fn every_vertex_starts_at_the_given_position() {
    let atlas = atlas_of(&["a", "b"]);
    let items = build(&atlas, 512, 512, [1.5f32, -2.0]).ok().unwrap();
    assert!(items.vertices.iter().all(|v| v.position == [1.5, -2.0]));
}

#[test]
fn empty_atlas_builds_empty_geometry() {
    let items = build(&Atlas::new(), 1, 1, 0u8).ok().unwrap();
    assert!(items.vertices.is_empty());
    assert!(items.indices.is_empty());
    assert_eq!(items.textures.len(), 0);
}

#[test]
fn image_without_size_builds_nothing() {
    let atlas = atlas_of(&["a"]);
    assert_eq!(build(&atlas, 0, 256, 0u8).err(), Some(GeometryError::ZeroDimension));
    assert_eq!(build(&atlas, 256, 0, 0u8).err(), Some(GeometryError::ZeroDimension));
    assert_eq!(build(&Atlas::new(), 0, 0, 0u8).err(), Some(GeometryError::ZeroDimension));
    assert_eq!(GeometryError::ZeroDimension.message(), "atlas image has a zero dimension");
}

#[test]
fn region_outside_the_image_is_built_all_the_same() {
    let mut atlas = Atlas::new();
    atlas.insert(
        "far".to_string(),
        Texture { xy: (65535, 65535), size: (65535, 65535), ..head(false) },
    );
    let items = build(&atlas, 16, 16, 0u8).ok().unwrap();
    assert_eq!(
        items.vertices[2].tex_coords,
        TexCoord { u: Ratio { num: 131070, den: 16 }, v: Ratio { num: 16 - 131070, den: 16 } }
    );
}
