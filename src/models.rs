//! Common data models.

use std::collections::HashMap;
use vstd::prelude::*;

verus! {

/// Which configuration or input rule a dicing operation broke.
#[derive(Debug, Clone, Copy, PartialEq, Eq, Structural)]
pub enum SpecError {
    UnitSizeZero,
    PaddingAboveUnitSize,
    InsetOutOfRange,
    AtlasLimitZero,
    UnitSizeAboveLimit,
    CantFitTexture,
}

/// Error occurred in a dicing operation.
#[derive(Debug, Clone, Copy, PartialEq, Eq, Structural)]
pub enum Error {
    /// An issue with [Prefs] and/or input data.
    Spec(SpecError),
}

impl Error {
    /// User-facing description of the error.
    pub fn message(&self) -> (r: &'static str)
        ensures
            *self == Error::Spec(SpecError::UnitSizeZero) ==> r@ == "Unit size can't be zero."@,
            *self == Error::Spec(SpecError::PaddingAboveUnitSize) ==> r@
                == "Padding can't be above unit size."@,
            *self == Error::Spec(SpecError::InsetOutOfRange) ==> r@
                == "UV inset should be in 0.0 to 0.5 range."@,
            *self == Error::Spec(SpecError::AtlasLimitZero) ==> r@
                == "Atlas size limit can't be zero."@,
            *self == Error::Spec(SpecError::UnitSizeAboveLimit) ==> r@
                == "Unit size can't be above atlas size limit."@,
            *self == Error::Spec(SpecError::CantFitTexture) ==> r@
                == "Can't fit single texture; increase atlas size limit."@,
    {
        match self {
            Error::Spec(SpecError::UnitSizeZero) => {
                let r = "Unit size can't be zero.";
                proof {
                    reveal_strlit("Unit size can't be zero.");
                }
                r
            },
            Error::Spec(SpecError::PaddingAboveUnitSize) => {
                let r = "Padding can't be above unit size.";
                proof {
                    reveal_strlit("Padding can't be above unit size.");
                }
                r
            },
            Error::Spec(SpecError::InsetOutOfRange) => {
                let r = "UV inset should be in 0.0 to 0.5 range.";
                proof {
                    reveal_strlit("UV inset should be in 0.0 to 0.5 range.");
                }
                r
            },
            Error::Spec(SpecError::AtlasLimitZero) => {
                let r = "Atlas size limit can't be zero.";
                proof {
                    reveal_strlit("Atlas size limit can't be zero.");
                }
                r
            },
            Error::Spec(SpecError::UnitSizeAboveLimit) => {
                let r = "Unit size can't be above atlas size limit.";
                proof {
                    reveal_strlit("Unit size can't be above atlas size limit.");
                }
                r
            },
            Error::Spec(SpecError::CantFitTexture) => {
                let r = "Can't fit single texture; increase atlas size limit.";
                proof {
                    reveal_strlit("Can't fit single texture; increase atlas size limit.");
                }
                r
            },
        }
    }
}

/// Integer preferences of a dicing operation: everything the dicer and packer decide on.
pub struct Prefs {
    /// The size of a single diced unit, in pixels.
    pub unit_size: u32,
    /// The size of border, in pixels, sampled around each diced unit inside atlas textures.
    pub padding: u32,
    /// Whether to trim transparent areas on the built meshes.
    pub trim_transparent: bool,
    /// Maximum size (width or height) of a single generated atlas texture.
    pub atlas_size_limit: u32,
    /// The generated atlas textures will always be square.
    pub atlas_square: bool,
    /// The generated atlas textures will always have power of two sides.
    pub atlas_pot: bool,
}

impl Default for Prefs {
    fn default() -> (r: Prefs)
        ensures
            r.unit_size == 64,
            r.padding == 2,
            r.trim_transparent,
            r.atlas_size_limit == 2048,
            !r.atlas_square,
            !r.atlas_pot,
    {
        Prefs {
            unit_size: 64,
            padding: 2,
            trim_transparent: true,
            atlas_size_limit: 2048,
            atlas_square: false,
            atlas_pot: false,
        }
    }
}

impl Prefs {
    /// Side of a diced unit together with its padding on both sides.
    pub open spec fn padded_unit_size(&self) -> int {
        self.unit_size + 2 * self.padding
    }

    /// A padded block of pixels fits in memory.
    pub open spec fn block_fits(&self) -> bool {
        self.padded_unit_size() * self.padded_unit_size() <= usize::MAX
    }
}

/// A texture pixel represented as 8-bit RGBA components.
#[derive(Debug, Copy, Clone, PartialEq, Eq, Structural, Hash)]
pub struct Pixel {
    pub red: u8,
    pub green: u8,
    pub blue: u8,
    pub alpha: u8,
}

impl Pixel {
    /// The transparent default pixel (0, 0, 0, 0).
    pub open spec fn clear() -> Pixel {
        Pixel { red: 0, green: 0, blue: 0, alpha: 0 }
    }

    pub fn new(r: u8, g: u8, b: u8, a: u8) -> (p: Pixel)
        ensures
            p.red == r,
            p.green == g,
            p.blue == b,
            p.alpha == a,
    {
        Pixel { red: r, green: g, blue: b, alpha: a }
    }

    pub fn from_raw(raw: [u8; 4]) -> (p: Pixel)
        ensures
            p.red == raw@[0],
            p.green == raw@[1],
            p.blue == raw@[2],
            p.alpha == raw@[3],
    {
        Pixel { red: raw[0], green: raw[1], blue: raw[2], alpha: raw[3] }
    }

    pub fn r(&self) -> (v: u8)
        ensures
            v == self.red,
    {
        self.red
    }

    pub fn g(&self) -> (v: u8)
        ensures
            v == self.green,
    {
        self.green
    }

    pub fn b(&self) -> (v: u8)
        ensures
            v == self.blue,
    {
        self.blue
    }

    pub fn a(&self) -> (v: u8)
        ensures
            v == self.alpha,
    {
        self.alpha
    }

    pub fn to_raw(self) -> (raw: [u8; 4])
        ensures
            raw@ == seq![self.red, self.green, self.blue, self.alpha],
    {
        let raw = [self.red, self.green, self.blue, self.alpha];
        assert(raw@ =~= seq![self.red, self.green, self.blue, self.alpha]);
        raw
    }
}

/// A set of pixels forming sprite texture.
#[derive(Debug, Clone)]
pub struct Texture {
    /// Width of the texture, in pixels.
    pub width: u32,
    /// Height of the texture, in pixels.
    pub height: u32,
    /// Pixel content of the texture, row-major from the top-left pixel.
    pub pixels: Vec<Pixel>,
}

impl Texture {
    /// The pixel buffer holds exactly one pixel per texture cell.
    pub open spec fn wf(&self) -> bool {
        self.pixels@.len() == self.width * self.height
    }
}

/// Source sprite specified as input for a dicing operation.
#[derive(Debug, Clone)]
pub struct SourceSprite {
    /// Unique identifier of the sprite among others in a dicing operation.
    pub id: String,
    /// Texture containing all the pixels of the sprite.
    pub texture: Texture,
}

/// A rectangle in unsigned integer space.
#[derive(Debug, Clone, Copy, PartialEq, Eq, Structural)]
pub struct URect {
    /// Position of the top-left corner of the rectangle on horizontal axis.
    pub x: u32,
    /// Position of the top-left corner of the rectangle on vertical axis.
    pub y: u32,
    /// Length of the rectangle over horizontal axis, starting from X.
    pub width: u32,
    /// Length of the rectangle over vertical axis, starting from Y.
    pub height: u32,
}

impl URect {
    pub fn new(x: u32, y: u32, width: u32, height: u32) -> (r: URect)
        ensures
            r == (URect { x, y, width, height }),
    {
        URect { x, y, width, height }
    }
}

/// A rectangle in signed integer space.
#[derive(Debug, Clone, Copy, PartialEq, Eq, Structural)]
pub struct IRect {
    /// Position of the top-left corner of the rectangle on horizontal axis.
    pub x: i64,
    /// Position of the top-left corner of the rectangle on vertical axis.
    pub y: i64,
    /// Length of the rectangle over horizontal axis, starting from X.
    pub width: u32,
    /// Length of the rectangle over vertical axis, starting from Y.
    pub height: u32,
}

/// Size of arbitrary entity in unsigned integer space.
#[derive(Debug, Clone, Copy, PartialEq, Eq, Structural)]
pub struct USize {
    /// Width of the entity.
    pub width: u32,
    /// Height of the entity.
    pub height: u32,
}

impl USize {
    pub fn new(width: u32, height: u32) -> (r: USize)
        ensures
            r == (USize { width, height }),
    {
        USize { width, height }
    }
}

/// A chunk diced from a source texture.
#[derive(Debug, Clone)]
pub struct DicedUnit {
    /// Position and dimensions of the unit inside source texture.
    pub rect: URect,
    /// Unit pixels chopped from the source texture, including padding.
    pub pixels: Vec<Pixel>,
    /// Content hash based on the non-padded pixels of the unit.
    pub hash: u64,
}

/// Product of dicing a [SourceSprite]'s texture.
#[derive(Debug, Clone)]
pub struct DicedTexture {
    /// Identifier of the [SourceSprite] to which this texture belongs.
    pub id: String,
    /// Dimensions of the source texture.
    pub size: USize,
    /// Associated diced units.
    pub units: Vec<DicedUnit>,
    /// Hashes of diced units with distinct content, ascending.
    pub unique: Vec<u64>,
}

/// Product of packing [DicedTexture]s.
#[derive(Debug, Clone)]
pub struct Atlas {
    /// The atlas texture containing unique content of the packed diced textures.
    pub texture: Texture,
    /// Non-padded interior of each unit on the atlas texture, in atlas pixels, mapped by
    /// unit hash; width and height are those of the unit's cropped source rectangle.
    pub rects: HashMap<u64, URect>,
    /// Diced textures packed into this atlas, in the order they were admitted.
    pub packed: Vec<DicedTexture>,
}

} // verus!
