use calx::atlas::{Atlas, AtlasBuilder, AtlasError, MAX_ATLAS_SIDE};
use calx::geom::{Rect, V2};
use calx::img::{Image, Rgba8};

const CLEAR: Rgba8 = Rgba8 { r: 0, g: 0, b: 0, a: 0 };

fn opaque(w: u32, h: u32, tag: u8) -> Image {
    let mut img = Image::new(w, h);
    for y in 0..h {
        for x in 0..w {
            img.put_pixel(x, y, Rgba8 { r: x as u8, g: y as u8, b: tag, a: 255 });
        }
    }
    img
}

fn same_image(a: &Image, b: &Image) -> bool {
    if a.dimensions() != b.dimensions() {
        return false;
    }
    for y in 0..a.height() {
        for x in 0..a.width() {
            if a.get_pixel(x, y) != b.get_pixel(x, y) {
                return false;
            }
        }
    }
    true
}

#[test]
fn no_sprites_give_the_smallest_atlas() {
    let atlas = Atlas::new(AtlasBuilder::new()).unwrap();
    assert!(atlas.side() >= 1);
    assert_eq!(atlas.side(), 1);
    assert_eq!(atlas.image.dimensions(), (1, 1));
    assert_eq!(atlas.image.get_pixel(0, 0), CLEAR);
    assert!(atlas.vertices.is_empty());
    assert!(atlas.texcoords.is_empty());
}

#[test]
fn one_opaque_sprite() {
    let mut builder = AtlasBuilder::new();
    assert_eq!(builder.push(V2(10, 10), opaque(4, 4, 7)), 0);
    let atlas = Atlas::new(builder).unwrap();
    assert_eq!(atlas.vertices, vec![Rect(V2(10, 10), V2(4, 4))]);
    // The padded sprite takes 5 x 5 = 25 pixels: the side is 8.
    assert_eq!(atlas.side(), 8);
    assert_eq!(atlas.texcoords, vec![Rect(V2(0, 0), V2(4, 4))]);
    let side = atlas.side() as f32;
    let t = atlas.texcoords[0];
    let area = (t.1 .0 as f32 / side) * (t.1 .1 as f32 / side);
    assert_eq!(area, (4.0 * 4.0) / (side * side));
    for y in 0..8u32 {
        for x in 0..8u32 {
            let expect = if x < 4 && y < 4 {
                Rgba8 { r: x as u8, g: y as u8, b: 7, a: 255 }
            } else {
                CLEAR
            };
            assert_eq!(atlas.image.get_pixel(x, y), expect);
        }
    }
}

#[test]
fn sprites_too_large_for_the_largest_side() {
    let mut builder = AtlasBuilder::new();
    builder.push(V2(0, 0), opaque(8, 8, 1));
    builder.push(V2(0, 0), opaque(8, 8, 2));
    let built = Atlas::with_max_side(builder, 8);
    assert_eq!(built.err(), Some(AtlasError::TooLarge));
    let mut builder = AtlasBuilder::new();
    builder.push(V2(0, 0), opaque(8, 8, 1));
    builder.push(V2(0, 0), opaque(8, 8, 2));
    assert_eq!(Atlas::with_max_side(builder, 16).err(), Some(AtlasError::TooLarge));
    let mut builder = AtlasBuilder::new();
    builder.push(V2(0, 0), opaque(8, 8, 1));
    builder.push(V2(0, 0), opaque(8, 8, 2));
    let atlas = Atlas::with_max_side(builder, 32).unwrap();
    assert_eq!(atlas.side(), 32);
}

#[test]
fn no_side_at_all() {
    assert_eq!(Atlas::with_max_side(AtlasBuilder::new(), 0).err(), Some(AtlasError::TooLarge));
    let atlas = Atlas::with_max_side(AtlasBuilder::new(), 1).unwrap();
    assert_eq!(atlas.side(), 1);
}

#[test]
fn largest_side_is_just_enough() {
    let mut builder = AtlasBuilder::new();
    builder.push(V2(0, 0), opaque(7, 7, 1));
    assert_eq!(Atlas::with_max_side(builder, 8).unwrap().side(), 8);
    let mut builder = AtlasBuilder::new();
    builder.push(V2(0, 0), opaque(7, 7, 1));
    assert_eq!(Atlas::with_max_side(builder, 7).err(), Some(AtlasError::TooLarge));
    assert_eq!(MAX_ATLAS_SIDE, 1 << 29);
}

#[test]
fn a_transparent_sprite_keeps_its_index() {
    let mut builder = AtlasBuilder::new();
    assert_eq!(builder.push(V2(1, 2), opaque(3, 3, 1)), 0);
    assert_eq!(builder.push(V2(-5, 6), Image::new(8, 8)), 1);
    assert_eq!(builder.push(V2(3, 4), opaque(2, 2, 2)), 2);
    assert_eq!(builder.len(), 3);
    let atlas = Atlas::new(builder).unwrap();
    assert_eq!(atlas.vertices.len(), 3);
    assert_eq!(atlas.texcoords.len(), 3);
    assert_eq!(atlas.vertices[1], Rect(V2(-5, 6), V2(0, 0)));
    assert_eq!(atlas.texcoords[1].1, V2(0, 0));
    assert_eq!(atlas.vertices[0], Rect(V2(1, 2), V2(3, 3)));
    assert_eq!(atlas.vertices[2], Rect(V2(3, 4), V2(2, 2)));

    // The other sprites stand where they stand without it, build after build.
    let mut again = AtlasBuilder::new();
    again.push(V2(1, 2), opaque(3, 3, 1));
    again.push(V2(-5, 6), Image::new(8, 8));
    again.push(V2(3, 4), opaque(2, 2, 2));
    let second = Atlas::new(again).unwrap();
    assert_eq!(second.texcoords, atlas.texcoords);
    assert_eq!(second.vertices, atlas.vertices);
    assert!(same_image(&second.image, &atlas.image));
}

#[test]
fn only_a_transparent_sprite() {
    let mut builder = AtlasBuilder::new();
    builder.push(V2(7, 7), Image::new(8, 8));
    let atlas = Atlas::new(builder).unwrap();
    assert_eq!(atlas.side(), 1);
    assert_eq!(atlas.vertices, vec![Rect(V2(7, 7), V2(0, 0))]);
    assert_eq!(atlas.texcoords, vec![Rect(V2(0, 0), V2(0, 0))]);
    assert_eq!(atlas.image.get_pixel(0, 0), CLEAR);
}

#[test]
fn push_crops_and_moves_the_offset() {
    let mut img = Image::new(10, 10);
    let p = Rgba8 { r: 1, g: 2, b: 3, a: 4 };
    let q = Rgba8 { r: 5, g: 6, b: 7, a: 8 };
    img.put_pixel(3, 2, p);
    img.put_pixel(5, 6, q);
    let mut builder = AtlasBuilder::new();
    builder.push(V2(-20, 100), img);
    let atlas = Atlas::new(builder).unwrap();
    assert_eq!(atlas.vertices, vec![Rect(V2(-17, 102), V2(3, 5))]);
    // Padded 4 x 6 = 24 pixels: the side 8 is the first that holds it.
    assert_eq!(atlas.side(), 8);
    assert_eq!(atlas.texcoords, vec![Rect(V2(0, 0), V2(3, 5))]);
    assert_eq!(atlas.image.get_pixel(0, 0), p);
    assert_eq!(atlas.image.get_pixel(2, 4), q);
    assert_eq!(atlas.image.get_pixel(1, 1), CLEAR);
}

#[test]
fn offsets_at_the_ends_of_their_range() {
    let mut img = Image::new(3, 3);
    img.put_pixel(2, 2, Rgba8 { r: 0, g: 0, b: 0, a: 1 });
    let mut builder = AtlasBuilder::new();
    builder.push(V2(i32::MAX, i32::MIN), img);
    let atlas = Atlas::new(builder).unwrap();
    assert_eq!(
        atlas.vertices,
        vec![Rect(V2(i32::MAX as i64 + 2, i32::MIN as i64 + 2), V2(1, 1))]
    );
}

fn sample() -> AtlasBuilder {
    let mut builder = AtlasBuilder::new();
    let sizes = [(4, 4), (1, 9), (7, 2), (3, 3), (5, 1), (2, 8), (6, 6), (1, 1)];
    for (i, (w, h)) in sizes.iter().enumerate() {
        let index = builder.push(V2(i as i32, -(i as i32)), opaque(*w, *h, i as u8));
        assert_eq!(index, i);
    }
    builder
}

#[test]
fn lists_follow_the_order_of_the_pushes() {
    let atlas = Atlas::new(sample()).unwrap();
    let sizes = [(4, 4), (1, 9), (7, 2), (3, 3), (5, 1), (2, 8), (6, 6), (1, 1)];
    assert_eq!(atlas.vertices.len(), sizes.len());
    assert_eq!(atlas.texcoords.len(), sizes.len());
    for (i, (w, h)) in sizes.iter().enumerate() {
        assert_eq!(atlas.vertices[i], Rect(V2(i as i64, -(i as i64)), V2(*w, *h)));
        assert_eq!(atlas.texcoords[i].1, V2(*w as u32, *h as u32));
    }
}

#[test]
fn side_is_a_power_of_two_and_the_least_that_serves() {
    let atlas = Atlas::new(sample()).unwrap();
    let side = atlas.side();
    assert!(side.is_power_of_two());
    assert_eq!(atlas.image.dimensions(), (side, side));
    // Padded areas: 25 + 20 + 24 + 16 + 12 + 27 + 49 + 4 = 177 <= 16 * 16.
    assert_eq!(side, 16);
    assert_eq!(Atlas::with_max_side(sample(), side / 2).err(), Some(AtlasError::TooLarge));
}

#[test]
fn padded_sprites_lie_inside_and_apart() {
    let atlas = Atlas::new(sample()).unwrap();
    let side = atlas.side();
    let t = &atlas.texcoords;
    for i in 0..t.len() {
        assert!(t[i].0 .0 + t[i].1 .0 + 1 <= side);
        assert!(t[i].0 .1 + t[i].1 .1 + 1 <= side);
        for j in 0..i {
            let apart = t[i].0 .0 + t[i].1 .0 + 1 <= t[j].0 .0
                || t[j].0 .0 + t[j].1 .0 + 1 <= t[i].0 .0
                || t[i].0 .1 + t[i].1 .1 + 1 <= t[j].0 .1
                || t[j].0 .1 + t[j].1 .1 + 1 <= t[i].0 .1;
            assert!(apart);
        }
    }
}

#[test]
fn texture_gives_every_sprite_back() {
    let atlas = Atlas::new(sample()).unwrap();
    let sizes = [(4, 4), (1, 9), (7, 2), (3, 3), (5, 1), (2, 8), (6, 6), (1, 1)];
    let mut used = vec![vec![false; atlas.side() as usize]; atlas.side() as usize];
    for (i, (w, h)) in sizes.iter().enumerate() {
        let t = atlas.texcoords[i];
        let part = atlas.image.sub_image(t);
        assert!(same_image(&part, &opaque(*w, *h, i as u8)));
        for y in 0..*h {
            for x in 0..*w {
                used[(t.0 .1 + y) as usize][(t.0 .0 + x) as usize] = true;
            }
        }
    }
    for y in 0..atlas.side() {
        for x in 0..atlas.side() {
            if !used[y as usize][x as usize] {
                assert_eq!(atlas.image.get_pixel(x, y), CLEAR);
            }
        }
    }
}

#[test]
fn building_twice_gives_the_same_atlas() {
    let first = Atlas::new(sample()).unwrap();
    let second = Atlas::new(sample()).unwrap();
    assert_eq!(first.vertices, second.vertices);
    assert_eq!(first.texcoords, second.texcoords);
    assert!(same_image(&first.image, &second.image));
}

#[test]
fn two_sprites_side_by_side() {
    let mut builder = AtlasBuilder::new();
    builder.push(V2(0, 0), opaque(3, 3, 1));
    builder.push(V2(0, 0), opaque(3, 3, 2));
    let atlas = Atlas::new(builder).unwrap();
    // Padded 4 x 4 each, 32 pixels: side 8, the second right of the first.
    assert_eq!(atlas.side(), 8);
    assert_eq!(atlas.texcoords, vec![Rect(V2(0, 0), V2(3, 3)), Rect(V2(4, 0), V2(3, 3))]);
    assert_eq!(atlas.image.get_pixel(3, 0), CLEAR);
    assert_eq!(atlas.image.get_pixel(4, 0), Rgba8 { r: 0, g: 0, b: 2, a: 255 });
}

#[test]
fn side_grows_when_the_estimate_does_not_pack() {
    // Padded 4 x 2 and 2 x 4: area 16 = 4 * 4. The tall one goes first, to
    // the corner; the wide one then finds no place in a square of side 4.
    let mut builder = AtlasBuilder::new();
    builder.push(V2(0, 0), opaque(3, 1, 0));
    builder.push(V2(0, 0), opaque(1, 3, 0));
    let atlas = Atlas::new(builder).unwrap();
    assert_eq!(atlas.side(), 8);
    assert_eq!(atlas.texcoords, vec![Rect(V2(2, 0), V2(3, 1)), Rect(V2(0, 0), V2(1, 3))]);
    // Three sprites of padded size 3 x 3: area 27, the side 8 serves.
    let mut builder = AtlasBuilder::new();
    for i in 0..3 {
        builder.push(V2(0, 0), opaque(2, 2, i));
    }
    assert_eq!(Atlas::new(builder).unwrap().side(), 8);
}

#[test]
fn empty_images_can_be_pushed() {
    let mut builder = AtlasBuilder::new();
    assert_eq!(builder.push(V2(1, 1), Image::new(0, 0)), 0);
    assert_eq!(builder.push(V2(2, 2), Image::new(5, 0)), 1);
    assert_eq!(builder.push(V2(3, 3), Image::new(0, 5)), 2);
    assert_eq!(builder.push(V2(4, 4), opaque(1, 1, 9)), 3);
    let atlas = Atlas::new(builder).unwrap();
    assert_eq!(atlas.vertices.len(), 4);
    assert_eq!(atlas.vertices[0], Rect(V2(1, 1), V2(0, 0)));
    assert_eq!(atlas.vertices[1], Rect(V2(2, 2), V2(0, 0)));
    assert_eq!(atlas.vertices[2], Rect(V2(3, 3), V2(0, 0)));
    assert_eq!(atlas.vertices[3], Rect(V2(4, 4), V2(1, 1)));
    // Padded 1 x 1 three times and 2 x 2 once: 7 pixels, side 4.
    assert_eq!(atlas.side(), 4);
    let t = atlas.texcoords[3];
    assert_eq!(atlas.image.get_pixel(t.0 .0, t.0 .1), Rgba8 { r: 0, g: 0, b: 9, a: 255 });
}
