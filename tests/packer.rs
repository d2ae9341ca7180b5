use sprite_dicing::dicer::dice;
use sprite_dicing::models::{Atlas, Pixel, Prefs, SourceSprite, Texture, URect};
use sprite_dicing::packer::pack;

const R: Pixel = Pixel { red: 255, green: 0, blue: 0, alpha: 255 };
const G: Pixel = Pixel { red: 0, green: 255, blue: 0, alpha: 255 };
const B: Pixel = Pixel { red: 0, green: 0, blue: 255, alpha: 255 };
const Y: Pixel = Pixel { red: 255, green: 255, blue: 0, alpha: 255 };
const C: Pixel = Pixel { red: 0, green: 255, blue: 255, alpha: 255 };
const M: Pixel = Pixel { red: 255, green: 0, blue: 255, alpha: 255 };
const T: Pixel = Pixel { red: 0, green: 0, blue: 0, alpha: 0 };

fn tex(width: u32, height: u32, pixels: Vec<Pixel>) -> Texture {
    Texture { width, height, pixels }
}

fn one(p: Pixel) -> Texture {
    tex(1, 1, vec![p])
}

fn rgby() -> Texture {
    tex(2, 2, vec![R, G, B, Y])
}

fn bgrt() -> Texture {
    tex(2, 2, vec![B, G, R, T])
}

fn defaults() -> Prefs {
    Prefs { unit_size: 1, padding: 0, ..Prefs::default() }
}

fn try_pack(src: Vec<Texture>, prefs: &Prefs) -> Result<Vec<Atlas>, String> {
    let sprites: Vec<SourceSprite> = src
        .into_iter()
        .enumerate()
        .map(|(i, texture)| SourceSprite { id: format!("sprite{i}"), texture })
        .collect();
    let diced = dice(&sprites, prefs).map_err(|e| e.message().to_string())?;
    pack(diced, prefs).map_err(|e| e.message().to_string())
}

fn pack_all(src: Vec<Texture>, prefs: &Prefs) -> Vec<Atlas> {
    match try_pack(src, prefs) {
        Ok(atlases) => atlases,
        Err(message) => panic!("{}", message),
    }
}

#[test]
fn can_pack_with_defaults() {
    pack_all(vec![one(R), one(B)], &Prefs::default());
}

#[test]
#[should_panic(expected = "Atlas size limit can't be zero.")]
fn errs_when_limit_is_zero() {
    let prefs = Prefs { atlas_size_limit: 0, ..defaults() };
    pack_all(vec![bgrt()], &prefs);
}

#[test]
#[should_panic(expected = "Unit size can't be above atlas size limit.")]
fn errs_when_unit_size_above_limit() {
    let prefs = Prefs { unit_size: 2, atlas_size_limit: 1, ..defaults() };
    pack_all(vec![bgrt()], &prefs);
}

#[test]
fn when_empty_input_empty_vec_is_returned() {
    assert_eq!(pack_all(vec![], &Prefs::default()).len(), 0);
}

#[test]
fn transparent_input_packs_to_nothing() {
    assert_eq!(pack_all(vec![tex(2, 2, vec![T, T, T, T])], &defaults()).len(), 0);
}

#[test]
fn when_content_doesnt_fit_multiple_atlases_are_produced() {
    let prefs = Prefs { atlas_size_limit: 1, ..defaults() };
    let atlases = pack_all(vec![one(B), one(R)], &prefs);
    assert_eq!(atlases.len(), 2);
    for atlas in &atlases {
        assert_eq!((atlas.texture.width, atlas.texture.height), (1, 1));
        assert_eq!(atlas.packed.len(), 1);
    }
}

#[test]
#[should_panic(expected = "Can't fit single texture; increase atlas size limit.")]
fn errs_when_content_from_single_texture_doesnt_fit() {
    let prefs = Prefs { atlas_size_limit: 1, ..defaults() };
    pack_all(vec![bgrt()], &prefs);
}

#[test]
fn cant_fit_error_is_returned_not_raised() {
    let prefs = Prefs { atlas_size_limit: 1, ..defaults() };
    assert_eq!(
        try_pack(vec![bgrt()], &prefs).err().unwrap(),
        "Can't fit single texture; increase atlas size limit."
    );
}

#[test]
fn when_square_is_optimal_atlas_is_square() {
    let prefs = Prefs { atlas_size_limit: 4, ..defaults() };
    let atlas = pack_all(vec![rgby(), one(B)], &prefs).pop().unwrap();
    assert_eq!(atlas.texture.width, 2);
    assert_eq!(atlas.texture.height, 2);
}

#[test]
fn when_square_is_not_optimal_atlas_is_not_square() {
    let prefs = Prefs { atlas_size_limit: 4, ..defaults() };
    let atlas = pack_all(vec![rgby(), one(C)], &prefs).pop().unwrap();
    assert_eq!(atlas.texture.width, 3);
    assert_eq!(atlas.texture.height, 2);
}

#[test]
fn when_square_is_not_optimal_but_forced_atlas_is_square() {
    let prefs = Prefs { atlas_size_limit: 4, atlas_square: true, ..defaults() };
    let atlas = pack_all(vec![rgby(), one(C)], &prefs).pop().unwrap();
    assert_eq!(atlas.texture.width, 3);
    assert_eq!(atlas.texture.height, 3);
}

#[test]
fn when_pot_forced_atlas_is_power_of_two() {
    let prefs = Prefs { atlas_size_limit: 4, atlas_pot: true, ..defaults() };
    let atlas = pack_all(vec![rgby(), one(C)], &prefs).pop().unwrap();
    assert_eq!(atlas.texture.width, 4);
    assert_eq!(atlas.texture.height, 4);
}

#[test]
fn unused_pixels_are_clear() {
    let prefs = Prefs { atlas_size_limit: 4, atlas_pot: true, ..defaults() };
    let atlas = pack_all(vec![rgby(), one(C)], &prefs).pop().unwrap();
    let clear = atlas.texture.pixels.into_iter().filter(|p| p.eq(&T));
    assert_eq!(clear.count(), 11);
}

#[test]
fn uvs_are_mapped() {
    let atlas = pack_all(vec![one(R)], &defaults()).pop().unwrap();
    assert_eq!((atlas.texture.width, atlas.texture.height), (1, 1));
    let rect = atlas.rects.values().next().unwrap();
    assert_eq!(*rect, URect::new(0, 0, 1, 1));
}

#[test]
fn overflow_uvs_are_cropped() {
    let prefs = Prefs { unit_size: 2, padding: 1, ..defaults() };
    let atlas = pack_all(vec![one(M)], &prefs).pop().unwrap();
    assert_eq!((atlas.texture.width, atlas.texture.height), (4, 4));
    let rect = atlas.rects.values().next().unwrap();
    assert_eq!(*rect, URect::new(1, 1, 1, 1));
    let uv = (
        rect.x as f32 / 4.0,
        rect.y as f32 / 4.0,
        (2.0 / 4.0) * (rect.width as f32 / 2.0),
        (2.0 / 4.0) * (rect.height as f32 / 2.0),
    );
    assert_eq!(uv, (0.25, 0.25, 0.25, 0.25));
    assert!(atlas.texture.pixels.iter().all(|p| *p == M));
}

#[test]
fn units_are_laid_out_by_ascending_hash() {
    let atlas = pack_all(vec![rgby(), one(C)], &defaults()).pop().unwrap();
    let mut hashes: Vec<u64> = atlas.rects.keys().copied().collect();
    hashes.sort();
    let width = atlas.texture.width;
    for (slot, hash) in hashes.iter().enumerate() {
        let rect = atlas.rects[hash];
        assert_eq!(rect, URect::new(slot as u32 % width, slot as u32 / width, 1, 1));
        let pixel = atlas.texture.pixels[(rect.x + rect.y * width) as usize];
        let unit = atlas.packed.iter().flat_map(|t| t.units.iter()).find(|u| u.hash == *hash);
        assert_eq!(unit.unwrap().pixels[0], pixel);
    }
}

#[test]
fn duplicate_units_are_stored_once() {
    let atlas = pack_all(vec![rgby(), tex(2, 1, vec![R, G])], &defaults()).pop().unwrap();
    assert_eq!(atlas.rects.len(), 4);
    assert_eq!(atlas.packed.len(), 2);
}

#[test]
fn every_unit_hash_has_a_rect() {
    let prefs = Prefs { atlas_size_limit: 2, ..defaults() };
    let atlases = pack_all(vec![rgby(), one(C), one(M), tex(2, 1, vec![Y, C])], &prefs);
    let mut ids = Vec::new();
    for atlas in &atlases {
        for texture in &atlas.packed {
            ids.push(texture.id.clone());
            for unit in &texture.units {
                assert!(atlas.rects.contains_key(&unit.hash));
            }
        }
    }
    ids.sort();
    assert_eq!(ids, vec!["sprite0", "sprite1", "sprite2", "sprite3"]);
}

#[test]
fn greedy_admits_textures_adding_fewest_new_units_first() {
    let prefs = Prefs { atlas_size_limit: 2, ..defaults() };
    let atlases = pack_all(vec![rgby(), one(C), tex(2, 1, vec![R, G])], &prefs);
    assert_eq!(atlases.len(), 2);
    let first: Vec<&str> = atlases[0].packed.iter().map(|t| t.id.as_str()).collect();
    assert_eq!(first, vec!["sprite1", "sprite2"]);
    assert_eq!(atlases[1].packed[0].id, "sprite0");
}

#[test]
fn packing_reproduces() {
    let prefs = Prefs { atlas_size_limit: 4, ..defaults() };
    let a = pack_all(vec![rgby(), one(C), bgrt()], &prefs);
    let b = pack_all(vec![rgby(), one(C), bgrt()], &prefs);
    assert_eq!(a.len(), b.len());
    for (x, y) in a.iter().zip(b.iter()) {
        assert_eq!(x.texture.pixels, y.texture.pixels);
        assert_eq!(x.rects, y.rects);
    }
}
