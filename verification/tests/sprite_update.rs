use spine_render::atlas::{Atlas, Texture};
use spine_render::geometry::{build, AtlasItems, TexCoord};
use spine_render::sprite::{apply, draws, Draw, Sprite};

type P = [f32; 2];

fn items() -> AtlasItems<P> {
    let mut atlas = Atlas::new();
    for (k, name) in ["head", "torso", "arm"].iter().enumerate() {
        atlas.insert(
            name.to_string(),
            Texture {
                rotate: k == 1,
                xy: (10 * k as u16, 0),
                size: (8, 8),
                orig: (8, 8),
                offset: (0, 0),
                index: -1,
            },
        );
    }
    build(&atlas, 64, 64, [0.0, 0.0]).ok().unwrap()
}

fn sprite(name: &str, at: f32) -> Sprite<[P; 4]> {
    Sprite {
        attachment: name.to_string(),
        placement: [[at, at], [at + 1.0, at], [at + 1.0, at + 1.0], [at, at + 1.0]],
    }
}

fn positions(items: &AtlasItems<P>) -> Vec<P> {
    items.vertices.iter().map(|v| v.position).collect()
}

fn tex_coords(items: &AtlasItems<P>) -> Vec<TexCoord> {
    items.vertices.iter().map(|v| v.tex_coords).collect()
}

#[test]
fn known_sprite_moves_its_own_quad() {
    let mut g = items();
    let before = tex_coords(&g);
    apply(&vec![sprite("torso", 5.0)], &g.textures, &mut g.vertices);
    let p = positions(&g);
    assert_eq!(&p[0..4], &[[0.0, 0.0]; 4]);
    assert_eq!(&p[4..8], &[[5.0, 5.0], [6.0, 5.0], [6.0, 6.0], [5.0, 6.0]]);
    assert_eq!(&p[8..12], &[[0.0, 0.0]; 4]);
    assert_eq!(tex_coords(&g), before);
}

#[test]
fn unknown_sprite_changes_nothing() {
    let mut g = items();
    let p = positions(&g);
    let t = tex_coords(&g);
    apply(&vec![sprite("tail", 5.0), sprite("", 1.0), sprite("Head", 2.0)], &g.textures, &mut g.vertices);
    assert_eq!(positions(&g), p);
    assert_eq!(tex_coords(&g), t);
    assert_eq!(g.vertices.len(), 12);
}

#[test]
fn unknown_sprite_among_known_ones_is_passed_over() {
    let mut with = items();
    let mut without = items();
    apply(
        &vec![sprite("head", 1.0), sprite("tail", 9.0), sprite("arm", 3.0)],
        &with.textures,
        &mut with.vertices,
    );
    apply(&vec![sprite("head", 1.0), sprite("arm", 3.0)], &without.textures, &mut without.vertices);
    assert_eq!(positions(&with), positions(&without));
    assert_eq!(positions(&with)[8], [3.0, 3.0]);
}

#[test]
fn later_sprite_of_a_name_wins() {
    let mut g = items();
    apply(&vec![sprite("head", 1.0), sprite("head", 2.0)], &g.textures, &mut g.vertices);
    assert_eq!(positions(&g)[0], [2.0, 2.0]);
}

#[test]
fn quad_without_a_sprite_keeps_its_position() {
    let mut g = items();
    apply(&vec![sprite("head", 1.0), sprite("arm", 3.0)], &g.textures, &mut g.vertices);
    apply(&vec![sprite("arm", 4.0)], &g.textures, &mut g.vertices);
    let p = positions(&g);
    assert_eq!(p[0], [1.0, 1.0]);
    assert_eq!(p[2], [2.0, 2.0]);
    assert_eq!(p[8], [4.0, 4.0]);
}

#[test]
fn empty_frame_changes_nothing() {
    let mut g = items();
    let p = positions(&g);
    apply(&Vec::new(), &g.textures, &mut g.vertices);
    assert_eq!(positions(&g), p);
}

#[test]
fn draws_list_the_known_sprites_in_frame_order() {
    let g = items();
    let frame = vec![
        Sprite { attachment: "arm".to_string(), placement: 'a' },
        Sprite { attachment: "tail".to_string(), placement: 'b' },
        Sprite { attachment: "head".to_string(), placement: 'c' },
        Sprite { attachment: "arm".to_string(), placement: 'd' },
    ];
    assert_eq!(
        draws(&frame, &g.textures),
        vec![
            Draw { sprite: 0, index_base: 12 },
            Draw { sprite: 2, index_base: 0 },
            Draw { sprite: 3, index_base: 12 },
        ]
    );
    for d in draws(&frame, &g.textures) {
        assert!(d.index_base + 6 <= g.indices.len());
    }
}

#[test]
fn draws_of_unknown_sprites_are_none() {
    let g = items();
    let frame = vec![Sprite { attachment: "tail".to_string(), placement: () }];
    assert!(draws(&frame, &g.textures).is_empty());
    assert!(draws(&Vec::<Sprite<()>>::new(), &g.textures).is_empty());
}
