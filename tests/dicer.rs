use sprite_dicing::dicer::dice;
use sprite_dicing::models::{
    DicedTexture, DicedUnit, Error, Pixel, Prefs, SourceSprite, SpecError, Texture, URect,
};

const R: Pixel = Pixel { red: 255, green: 0, blue: 0, alpha: 255 };
const G: Pixel = Pixel { red: 0, green: 255, blue: 0, alpha: 255 };
const B: Pixel = Pixel { red: 0, green: 0, blue: 255, alpha: 255 };
const Y: Pixel = Pixel { red: 255, green: 255, blue: 0, alpha: 255 };
const T: Pixel = Pixel { red: 0, green: 0, blue: 0, alpha: 0 };

fn tex(width: u32, height: u32, pixels: Vec<Pixel>) -> Texture {
    assert_eq!(pixels.len(), (width * height) as usize);
    Texture { width, height, pixels }
}

fn b1x1() -> Texture {
    tex(1, 1, vec![B])
}

fn r1x1() -> Texture {
    tex(1, 1, vec![R])
}

fn rgby() -> Texture {
    tex(2, 2, vec![R, G, B, Y])
}

fn bgrt() -> Texture {
    tex(2, 2, vec![B, G, R, T])
}

fn btgr() -> Texture {
    tex(2, 2, vec![B, T, G, R])
}

fn tttt() -> Texture {
    tex(2, 2, vec![T, T, T, T])
}

fn rgb1x3() -> Texture {
    tex(1, 3, vec![R, G, B])
}

fn rgb3x1() -> Texture {
    tex(3, 1, vec![R, G, B])
}

fn rgb4x4() -> Texture {
    let cycle = [R, G, B];
    tex(4, 4, (0..16).map(|i| cycle[i % 3]).collect())
}

fn plt4x4() -> Texture {
    tex(4, 4, (0..16u8).map(|i| Pixel::new(i * 16, 255 - i * 16, i, 255)).collect())
}

fn pref(size: u32, pad: u32) -> Prefs {
    Prefs { unit_size: size, padding: pad, ..Prefs::default() }
}

fn src(texture: &Texture) -> SourceSprite {
    SourceSprite { id: "test".to_string(), texture: texture.clone() }
}

fn dice1(texture: &Texture, size: u32, pad: u32) -> DicedTexture {
    dice(&[src(texture)], &pref(size, pad)).unwrap().pop().unwrap()
}

fn is_opaque(texture: &DicedTexture) -> bool {
    texture.units.iter().all(|u| u.pixels.iter().all(|p| p.a() > 0))
}

fn has(units: &[DicedUnit], pixel: Pixel, rect: URect) -> bool {
    units.iter().any(|u| u.pixels[0] == pixel && u.rect == rect)
}

#[test]
fn can_create_pixel_from_raw() {
    let pixel = Pixel::from_raw([1, 2, 3, 4]);
    assert_eq!(pixel.r(), 1);
    assert_eq!(pixel.g(), 2);
    assert_eq!(pixel.b(), 3);
    assert_eq!(pixel.a(), 4);
}

#[test]
fn pixel_round_trips_through_raw() {
    assert_eq!(Pixel::new(9, 8, 7, 6).to_raw(), [9, 8, 7, 6]);
}

#[test]
fn can_dice_with_defaults() {
    assert!(dice(&[src(&b1x1())], &Prefs::default()).is_ok());
}

#[test]
fn errs_when_unit_size_zero() {
    let result = dice(&[src(&r1x1())], &pref(0, 0));
    assert!(result.is_err_and(|e| e.message() == "Unit size can't be zero."));
}

#[test]
fn errs_when_padding_is_above_unit_size() {
    let result = dice(&[src(&r1x1())], &pref(1, 2));
    assert!(result.is_err_and(|e| e.message() == "Padding can't be above unit size."));
}

#[test]
fn error_messages_match_each_rule() {
    assert_eq!(Error::Spec(SpecError::InsetOutOfRange).message(), "UV inset should be in 0.0 to 0.5 range.");
    assert_eq!(Error::Spec(SpecError::AtlasLimitZero).message(), "Atlas size limit can't be zero.");
    assert_eq!(
        Error::Spec(SpecError::UnitSizeAboveLimit).message(),
        "Unit size can't be above atlas size limit."
    );
    assert_eq!(
        Error::Spec(SpecError::CantFitTexture).message(),
        "Can't fit single texture; increase atlas size limit."
    );
}

#[test]
fn size_equals_source_texture_dimensions() {
    let diced = dice1(&rgb4x4(), 4, 0);
    assert_eq!(diced.size.width, 4);
    assert_eq!(diced.size.height, 4);
}

#[test]
fn unit_count_equal_double_texture_size_divided_by_unit_size_square() {
    assert_eq!(dice1(&rgb1x3(), 1, 0).units.len(), 3);
    assert_eq!(dice1(&rgb4x4(), 2, 0).units.len(), 4);
    assert_eq!(dice1(&rgb4x4(), 4, 0).units.len(), 1);
}

#[test]
fn unit_count_doesnt_depend_on_padding() {
    let pad_0_count = dice1(&rgb4x4(), 1, 0).units.len();
    let pad_1_count = dice1(&rgb4x4(), 1, 1).units.len();
    assert_eq!(pad_0_count, pad_1_count);
}

#[test]
fn when_unit_size_is_larger_than_texture_single_unit_is_diced() {
    assert_eq!(dice1(&rgb3x1(), 5, 0).units.len(), 1);
    assert_eq!(dice1(&rgb4x4(), 128, 0).units.len(), 1);
}

#[test]
fn transparent_units_are_ignored() {
    let prf = &pref(1, 0);
    assert!(dice(&[src(&bgrt())], prf).unwrap().iter().all(is_opaque));
    assert!(dice(&[src(&btgr())], prf).unwrap().iter().all(is_opaque));
}

#[test]
fn transparent_sprites_are_ignored() {
    let prf = &pref(1, 0);
    assert!(dice(&[src(&tttt())], prf).unwrap().is_empty());
}

#[test]
fn transparent_sprite_among_others_is_skipped() {
    let sprites = [src(&r1x1()), src(&tttt()), src(&b1x1())];
    let diced = dice(&sprites, &pref(1, 0)).unwrap();
    assert_eq!(diced.len(), 2);
    assert_eq!(diced[0].units[0].pixels, vec![R]);
    assert_eq!(diced[1].units[0].pixels, vec![B]);
}

#[test]
fn content_hash_of_equal_pixels_is_equal() {
    let units = dice1(&bgrt(), 1, 0).units;
    for unit in dice1(&btgr(), 1, 0).units {
        assert!(units.iter().any(|u| u.hash == unit.hash));
    }
}

#[test]
fn content_hash_of_distinct_pixels_is_not_equal() {
    assert_ne!(dice1(&b1x1(), 1, 0).units[0].hash, dice1(&r1x1(), 1, 0).units[0].hash);
}

#[test]
fn content_hash_ignores_padding() {
    let no_pad = dice1(&rgb4x4(), 1, 0).units;
    for padded in dice1(&rgb4x4(), 1, 1).units {
        assert!(no_pad.iter().any(|u| u.hash == padded.hash))
    }
}

#[test]
fn hash_sequence_is_the_same_for_any_padding() {
    let a: Vec<u64> = dice1(&plt4x4(), 2, 0).units.iter().map(|u| u.hash).collect();
    let b: Vec<u64> = dice1(&plt4x4(), 2, 2).units.iter().map(|u| u.hash).collect();
    assert_eq!(a, b);
    assert_eq!(dice1(&plt4x4(), 2, 0).unique, dice1(&plt4x4(), 2, 1).unique);
}

#[test]
fn unit_rects_are_mapped_top_left_to_bottom_right() {
    let units = &dice(&[src(&rgby())], &pref(1, 0)).unwrap()[0].units;
    assert!(has(units, R, URect::new(0, 0, 1, 1)));
    assert!(has(units, G, URect::new(1, 0, 1, 1)));
    assert!(has(units, B, URect::new(0, 1, 1, 1)));
    assert!(has(units, Y, URect::new(1, 1, 1, 1)));
}

#[test]
fn units_are_visited_column_by_column() {
    let units = dice1(&rgby(), 1, 0).units;
    let rects: Vec<URect> = units.iter().map(|u| u.rect).collect();
    assert_eq!(
        rects,
        vec![
            URect::new(0, 0, 1, 1),
            URect::new(0, 1, 1, 1),
            URect::new(1, 0, 1, 1),
            URect::new(1, 1, 1, 1)
        ]
    );
}

#[test]
fn edge_units_are_cropped_to_the_texture() {
    let units = dice1(&rgb3x1(), 2, 0).units;
    assert_eq!(units.len(), 2);
    assert_eq!(units[0].rect, URect::new(0, 0, 2, 1));
    assert_eq!(units[1].rect, URect::new(2, 0, 1, 1));
    assert_eq!(units[1].pixels, vec![B, B, B, B]);
}

#[test]
fn when_no_content_padded_pixels_are_repeated() {
    assert_eq!(dice1(&b1x1(), 1, 1).units[0].pixels, vec![B, B, B, B, B, B, B, B, B]);
}

#[test]
fn padded_pixels_are_neighbors() {
    let pixels = dice1(&bgrt(), 1, 1).units.into_iter().map(|u| u.pixels).collect::<Vec<_>>();
    assert!(pixels.contains(&vec![B, B, G, B, B, G, R, R, T]));
}

#[test]
fn diced_texture_contains_identical_units() {
    assert_eq!(16, dice1(&rgb4x4(), 1, 0).units.len());
    assert_eq!(16, dice1(&plt4x4(), 1, 0).units.len());
}

#[test]
fn unique_doesnt_count_identical_units() {
    assert_eq!(3, dice1(&rgb4x4(), 1, 0).unique.len());
    assert_eq!(16, dice1(&plt4x4(), 1, 0).unique.len());
}

#[test]
fn unique_hashes_are_ascending_and_cover_the_units() {
    let diced = dice1(&plt4x4(), 1, 0);
    assert!(diced.unique.windows(2).all(|w| w[0] < w[1]));
    for unit in &diced.units {
        assert!(diced.unique.contains(&unit.hash));
    }
}
