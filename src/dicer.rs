//! Chops source sprite textures into units and hashes their content.

use crate::models::{
    DicedTexture, DicedUnit, Error, IRect, Pixel, Prefs, SourceSprite, SpecError, Texture, URect,
    USize,
};
use std::collections::hash_map::DefaultHasher;
use std::hash::Hasher;
use vstd::arithmetic::div_mod::{lemma_fundamental_div_mod, lemma_mod_pos_bound};
use vstd::prelude::*;
use vstd::std_specs::hash::DefaultHasherAdditionalSpecFns;

verus! {

broadcast use vstd::seq_lib::group_to_multiset_ensures;

/// `n` clamped into `[0, max]`.
pub open spec fn clamp(n: int, max: int) -> int {
    if n < 0 {
        0
    } else if n > max {
        max
    } else {
        n
    }
}

/// Pixel at `(x, y)`, where coordinates outside the texture repeat its edge pixels.
pub open spec fn sample(tex: Texture, x: int, y: int) -> Pixel {
    tex.pixels@[clamp(x, tex.width - 1) + tex.width * clamp(y, tex.height - 1)]
}

/// Row-major pixels of the `w × h` rectangle whose top-left corner is `(x0, y0)`.
pub open spec fn block(tex: Texture, x0: int, y0: int, w: int, h: int) -> Seq<Pixel> {
    Seq::new((w * h) as nat, |i: int| sample(tex, x0 + i % w, y0 + i / w))
}

/// The RGBA bytes of the pixels, in order.
pub open spec fn pixel_bytes(s: Seq<Pixel>) -> Seq<u8>
    decreases s.len(),
{
    if s.len() == 0 {
        Seq::empty()
    } else {
        let p = s.last();
        pixel_bytes(s.drop_last()) + seq![p.red, p.green, p.blue, p.alpha]
    }
}

/// Content hash of a pixel sequence: the fixed-key std hasher over its RGBA bytes.
pub open spec fn content_hash(s: Seq<Pixel>) -> u64 {
    DefaultHasher::spec_finish(seq![pixel_bytes(s)])
}

/// Every pixel has zero alpha.
pub open spec fn all_clear(s: Seq<Pixel>) -> bool {
    forall|i: int| 0 <= i < s.len() ==> s[i].alpha == 0
}

pub open spec fn ceil_div(a: int, b: int) -> int {
    (a + b - 1) / b
}

/// Number of unit columns over the texture.
pub open spec fn grid_cols(tex: Texture, size: int) -> int {
    ceil_div(tex.width as int, size)
}

/// Number of unit rows over the texture.
pub open spec fn grid_rows(tex: Texture, size: int) -> int {
    ceil_div(tex.height as int, size)
}

/// Number of grid cells over the texture.
pub open spec fn cell_count(tex: Texture, size: int) -> int {
    grid_cols(tex, size) * grid_rows(tex, size)
}

/// Column of the `k`-th visited cell; cells are visited column by column, top to bottom.
pub open spec fn cell_x(tex: Texture, size: int, k: int) -> int {
    k / grid_rows(tex, size)
}

/// Row of the `k`-th visited cell.
pub open spec fn cell_y(tex: Texture, size: int, k: int) -> int {
    k % grid_rows(tex, size)
}

/// Non-padded pixels of the unit at grid cell `(ux, uy)`.
pub open spec fn unit_content(tex: Texture, size: int, ux: int, uy: int) -> Seq<Pixel> {
    block(tex, ux * size, uy * size, size, size)
}

/// Source rectangle of the unit at grid cell `(ux, uy)`, cropped at the texture border.
pub open spec fn unit_rect(tex: Texture, size: int, ux: int, uy: int) -> URect {
    URect {
        x: (ux * size) as u32,
        y: (uy * size) as u32,
        width: (if size < tex.width - ux * size { size } else { tex.width - ux * size }) as u32,
        height: (if size < tex.height - uy * size { size } else { tex.height - uy * size }) as u32,
    }
}

/// `u` is the unit diced at grid cell `(ux, uy)` with the given unit size and padding.
pub open spec fn is_unit_of(u: DicedUnit, tex: Texture, size: int, pad: int, ux: int, uy: int) -> bool {
    &&& u.hash == content_hash(unit_content(tex, size, ux, uy))
    &&& u.rect == unit_rect(tex, size, ux, uy)
    &&& u.pixels@ == block(tex, ux * size - pad, uy * size - pad, size + 2 * pad, size + 2 * pad)
}

/// Indices of the cells, among the first `k` visited, whose content is not fully transparent.
pub open spec fn opaque_cells(tex: Texture, size: int, k: nat) -> Seq<int>
    decreases k,
{
    if k == 0 {
        Seq::empty()
    } else {
        let prev = opaque_cells(tex, size, (k - 1) as nat);
        let c = k - 1;
        if all_clear(unit_content(tex, size, cell_x(tex, size, c), cell_y(tex, size, c))) {
            prev
        } else {
            prev.push(c)
        }
    }
}

/// Indices of all the cells of the texture that yield a unit.
pub open spec fn kept_cells(tex: Texture, size: int) -> Seq<int> {
    opaque_cells(tex, size, cell_count(tex, size) as nat)
}

/// Strictly ascending, hence free of duplicates.
pub open spec fn strictly_ascending(s: Seq<u64>) -> bool {
    forall|i: int, j: int| 0 <= i < j < s.len() ==> s[i] < s[j]
}

/// Some unit carries hash `h`.
pub open spec fn holds_hash(units: Seq<DicedUnit>, h: u64) -> bool {
    exists|i: int| 0 <= i < units.len() && units[i].hash == h
}

/// `unique` lists the distinct hashes of `units`, ascending.
pub open spec fn is_unique_of(unique: Seq<u64>, units: Seq<DicedUnit>) -> bool {
    &&& strictly_ascending(unique)
    &&& forall|h: u64| unique.contains(h) <==> holds_hash(units, h)
}

/// `t` is what dicing `sprite` with the given unit size and padding yields.
pub open spec fn is_diced_texture(t: DicedTexture, sprite: SourceSprite, size: int, pad: int) -> bool {
    let tex = sprite.texture;
    let cells = kept_cells(tex, size);
    &&& t.id@ == sprite.id@
    &&& t.size == (USize { width: tex.width, height: tex.height })
    &&& t.units@.len() == cells.len()
    &&& forall|i: int|
        0 <= i < cells.len() ==> is_unit_of(
            #[trigger] t.units@[i],
            tex,
            size,
            pad,
            cell_x(tex, size, cells[i]),
            cell_y(tex, size, cells[i]),
        )
    &&& is_unique_of(t.unique@, t.units@)
}

/// Indices of the sprites, among the first `k`, that yield at least one unit.
pub open spec fn kept_sprites(sprites: Seq<SourceSprite>, size: int, k: nat) -> Seq<int>
    decreases k,
{
    if k == 0 {
        Seq::empty()
    } else {
        let prev = kept_sprites(sprites, size, (k - 1) as nat);
        if kept_cells(sprites[k - 1].texture, size).len() == 0 {
            prev
        } else {
            prev.push(k - 1)
        }
    }
}

/// Dicing settings for one sprite.
pub struct Context<'a> {
    pub size: u32,
    pub pad: u32,
    /// Currently diced source sprite.
    pub sprite: &'a SourceSprite,
}

impl<'a> Context<'a> {
    pub open spec fn wf(&self) -> bool {
        &&& self.size > 0
        &&& self.pad <= self.size
        &&& (self.size + 2 * self.pad) * (self.size + 2 * self.pad) <= usize::MAX
        &&& self.sprite.texture.wf()
    }
}

/// Sorts in place.
/// Relies on slice::sort_unstable: the same elements, reordered ascending.
#[verifier::external_body]
pub(crate) fn sort_ascending(v: &mut Vec<u64>)
    ensures
        final(v)@.to_multiset() == old(v)@.to_multiset(),
        forall|i: int, j: int| 0 <= i < j < final(v)@.len() ==> final(v)@[i] <= final(v)@[j],
{
    v.sort_unstable();
}

pub(crate) proof fn lemma_div_in_grid(i: int, w: int, h: int)
    requires
        0 <= i < w * h,
        w >= 0,
        h >= 0,
    ensures
        w > 0,
        0 <= i / w < h,
        0 <= i % w < w,
{
    assert(w > 0) by (nonlinear_arith)
        requires
            0 <= i < w * h,
            w >= 0,
            h >= 0,
    ;
    lemma_fundamental_div_mod(i, w);
    lemma_mod_pos_bound(i, w);
    let q = i / w;
    let r = i % w;
    assert(0 <= q < h) by (nonlinear_arith)
        requires
            i == w * q + r,
            0 <= r < w,
            0 <= i < w * h,
    ;
}

/// Facts about the unit grid over a `w × h` texture with unit size `s`.
pub(crate) proof fn lemma_grid_side(w: int, s: int)
    requires
        w >= 0,
        s > 0,
    ensures
        0 <= ceil_div(w, s) <= w,
        forall|u: int| 0 <= u < ceil_div(w, s) ==> #[trigger] (u * s) < w,
{
    let q = ceil_div(w, s);
    lemma_fundamental_div_mod(w + s - 1, s);
    lemma_mod_pos_bound(w + s - 1, s);
    let r = (w + s - 1) % s;
    assert(0 <= q <= w) by (nonlinear_arith)
        requires
            w + s - 1 == s * q + r,
            0 <= r < s,
            w >= 0,
            s > 0,
    ;
    assert forall|u: int| 0 <= u < q implies #[trigger] (u * s) < w by {
        assert(u * s < w) by (nonlinear_arith)
            requires
                w + s - 1 == s * q + r,
                0 <= r < s,
                0 <= u < q,
                s > 0,
        ;
    }
}

/// Clamps `n` into `[0, max]`.
fn saturate(n: i64, max: u32) -> (r: u32)
    ensures
        r == clamp(n as int, max as int),
{
    if n < 0 {
        0
    } else if n > max as i64 {
        max
    } else {
        n as u32
    }
}

/// Pixel at `(x, y)`, repeating the edge pixels outside the texture.
fn get_pixel(x: i64, y: i64, tex: &Texture) -> (p: Pixel)
    requires
        tex.wf(),
        tex.width > 0,
        tex.height > 0,
    ensures
        p == sample(*tex, x as int, y as int),
{
    let pixel_count = tex.pixels.len();
    let sx = saturate(x, tex.width - 1);
    let sy = saturate(y, tex.height - 1);
    proof {
        let w = tex.width as int;
        let h = tex.height as int;
        assert(w * sy <= w * (h - 1) && sx + w * (h - 1) < w * h) by (nonlinear_arith)
            requires
                0 <= sx <= w - 1,
                0 <= sy <= h - 1,
                w > 0,
        ;
    }
    tex.pixels[sx as usize + tex.width as usize * sy as usize]
}

/// Pixels of the rectangle, row-major, repeating the edge pixels outside the texture.
fn get_pixels(rect: &IRect, tex: &Texture) -> (r: Vec<Pixel>)
    requires
        tex.wf(),
        tex.width > 0,
        tex.height > 0,
        rect.width * rect.height <= usize::MAX,
        -0x1_0000_0000 <= rect.x <= 0x1_0000_0000,
        -0x1_0000_0000 <= rect.y <= 0x1_0000_0000,
    ensures
        r@ == block(*tex, rect.x as int, rect.y as int, rect.width as int, rect.height as int),
{
    let w = rect.width as usize;
    let h = rect.height as usize;
    let n = w * h;
    let ghost expected = block(
        *tex,
        rect.x as int,
        rect.y as int,
        rect.width as int,
        rect.height as int,
    );
    let mut pixels: Vec<Pixel> = Vec::with_capacity(n);
    let mut i: usize = 0;
    while i < n
        invariant
            n == w * h,
            w == rect.width,
            h == rect.height,
            i <= n,
            tex.wf(),
            tex.width > 0,
            tex.height > 0,
            -0x1_0000_0000 <= rect.x <= 0x1_0000_0000,
            -0x1_0000_0000 <= rect.y <= 0x1_0000_0000,
            expected == block(
                *tex,
                rect.x as int,
                rect.y as int,
                rect.width as int,
                rect.height as int,
            ),
            pixels@.len() == i,
            forall|j: int| 0 <= j < i ==> pixels@[j] == expected[j],
        decreases n - i,
    {
        proof {
            lemma_div_in_grid(i as int, w as int, h as int);
        }
        let x = rect.x + (i % w) as i64;
        let y = rect.y + (i / w) as i64;
        let p = get_pixel(x, y, tex);
        assert(expected[i as int] == p);
        pixels.push(p);
        i += 1;
    }
    assert(pixels@ =~= expected);
    pixels
}

/// The rectangle grown by `pad` on every side.
fn pad_rect(rect: &IRect, pad: u32) -> (r: IRect)
    requires
        rect.width + 2 * pad <= u32::MAX,
        rect.height + 2 * pad <= u32::MAX,
        rect.x >= i64::MIN + pad,
        rect.y >= i64::MIN + pad,
    ensures
        r.x == rect.x - pad,
        r.y == rect.y - pad,
        r.width == rect.width + 2 * pad,
        r.height == rect.height + 2 * pad,
{
    IRect {
        x: rect.x - pad as i64,
        y: rect.y - pad as i64,
        width: rect.width + pad * 2,
        height: rect.height + pad * 2,
    }
}

/// The rectangle with its right and bottom parts past the texture cut off.
fn crop_over_borders(rect: &IRect, tex: &Texture) -> (r: URect)
    requires
        0 <= rect.x < tex.width,
        0 <= rect.y < tex.height,
    ensures
        r.x == rect.x,
        r.y == rect.y,
        r.width == (if rect.width < tex.width - rect.x { rect.width as int } else { tex.width
            - rect.x }),
        r.height == (if rect.height < tex.height - rect.y { rect.height as int } else {
            tex.height - rect.y
        }),
{
    let right = tex.width - rect.x as u32;
    let bottom = tex.height - rect.y as u32;
    URect {
        x: rect.x as u32,
        y: rect.y as u32,
        width: if rect.width < right { rect.width } else { right },
        height: if rect.height < bottom { rect.height } else { bottom },
    }
}

/// Content hash of the pixels.
pub fn hash(pixels: &[Pixel]) -> (r: u64)
    ensures
        r == content_hash(pixels@),
{
    let mut bytes: Vec<u8> = Vec::new();
    let mut i: usize = 0;
    while i < pixels.len()
        invariant
            i <= pixels@.len(),
            bytes@ == pixel_bytes(pixels@.take(i as int)),
        decreases pixels@.len() - i,
    {
        let p = pixels[i];
        bytes.push(p.red);
        bytes.push(p.green);
        bytes.push(p.blue);
        bytes.push(p.alpha);
        assert(pixels@.take(i + 1).drop_last() =~= pixels@.take(i as int));
        assert(bytes@ =~= pixel_bytes(pixels@.take(i + 1)));
        i += 1;
    }
    assert(pixels@.take(i as int) =~= pixels@);
    let mut hasher = DefaultHasher::new();
    hasher.write(bytes.as_slice());
    hasher.finish()
}

/// Chops source sprite textures and collects unique units.
pub fn dice(sprites: &[SourceSprite], prefs: &Prefs) -> (r: Result<Vec<DicedTexture>, Error>)
    requires
        forall|i: int| 0 <= i < sprites@.len() ==> (#[trigger] sprites@[i]).texture.wf(),
        prefs.padding <= prefs.unit_size ==> prefs.block_fits(),
    ensures
        prefs.unit_size == 0 ==> r == Err::<Vec<DicedTexture>, Error>(
            Error::Spec(SpecError::UnitSizeZero),
        ),
        prefs.unit_size > 0 && prefs.padding > prefs.unit_size ==> r == Err::<
            Vec<DicedTexture>,
            Error,
        >(Error::Spec(SpecError::PaddingAboveUnitSize)),
        prefs.unit_size > 0 && prefs.padding <= prefs.unit_size ==> r is Ok,
        r matches Ok(v) ==> {
            let kept = kept_sprites(sprites@, prefs.unit_size as int, sprites@.len());
            &&& v@.len() == kept.len()
            &&& forall|i: int|
                0 <= i < kept.len() ==> is_diced_texture(
                    #[trigger] v@[i],
                    sprites@[kept[i]],
                    prefs.unit_size as int,
                    prefs.padding as int,
                )
        },
{
    if prefs.unit_size == 0 {
        return Err(Error::Spec(SpecError::UnitSizeZero));
    }
    if prefs.padding > prefs.unit_size {
        return Err(Error::Spec(SpecError::PaddingAboveUnitSize));
    }
    let ghost size = prefs.unit_size as int;
    let ghost pad = prefs.padding as int;
    let mut textures: Vec<DicedTexture> = Vec::new();
    let mut idx: usize = 0;
    while idx < sprites.len()
        invariant
            idx <= sprites@.len(),
            size == prefs.unit_size,
            pad == prefs.padding,
            prefs.unit_size > 0,
            prefs.padding <= prefs.unit_size,
            prefs.block_fits(),
            forall|i: int| 0 <= i < sprites@.len() ==> (#[trigger] sprites@[i]).texture.wf(),
            textures@.len() == kept_sprites(sprites@, size, idx as nat).len(),
            forall|i: int|
                0 <= i < textures@.len() ==> is_diced_texture(
                    #[trigger] textures@[i],
                    sprites@[kept_sprites(sprites@, size, idx as nat)[i]],
                    size,
                    pad,
                ),
        decreases sprites@.len() - idx,
    {
        let ctx = new_ctx(&sprites[idx], prefs);
        let ghost prev = textures@;
        if let Some(texture) = dice_it(&ctx) {
            textures.push(texture);
            assert forall|i: int| 0 <= i < textures@.len() implies is_diced_texture(
                #[trigger] textures@[i],
                sprites@[kept_sprites(sprites@, size, (idx + 1) as nat)[i]],
                size,
                pad,
            ) by {
                if i < prev.len() {
                    assert(textures@[i] == prev[i]);
                }
            }
        }
        idx += 1;
    }
    Ok(textures)
}

/// Dicing context for one sprite under the given preferences.
pub fn new_ctx<'a>(sprite: &'a SourceSprite, prefs: &Prefs) -> (ctx: Context<'a>)
    ensures
        ctx.size == prefs.unit_size,
        ctx.pad == prefs.padding,
        *ctx.sprite == *sprite,
{
    Context { size: prefs.unit_size, pad: prefs.padding, sprite }
}

/// Dices the context's sprite; `None` when all of its units are fully transparent.
pub fn dice_it(ctx: &Context) -> (r: Option<DicedTexture>)
    requires
        ctx.wf(),
    ensures
        r is None <==> kept_cells(ctx.sprite.texture, ctx.size as int).len() == 0,
        r matches Some(t) ==> is_diced_texture(t, *ctx.sprite, ctx.size as int, ctx.pad as int),
{
    let tex = &ctx.sprite.texture;
    let ghost size = ctx.size as int;
    let ghost pad = ctx.pad as int;
    let s = ctx.size as u64;
    proof {
        lemma_grid_side(tex.width as int, size);
        lemma_grid_side(tex.height as int, size);
    }
    let cols = ((tex.width as u64 + s - 1) / s) as usize;
    let rows = ((tex.height as u64 + s - 1) / s) as usize;
    proof {
        assert(cols * rows <= tex.width * tex.height) by (nonlinear_arith)
            requires
                0 <= cols <= tex.width,
                0 <= rows <= tex.height,
        ;
    }
    let pixel_count = tex.pixels.len();
    let n = cols * rows;
    let mut units: Vec<DicedUnit> = Vec::new();
    let mut k: usize = 0;
    while k < n
        invariant
            ctx.wf(),
            *tex == ctx.sprite.texture,
            size == ctx.size,
            pad == ctx.pad,
            cols == grid_cols(*tex, size),
            rows == grid_rows(*tex, size),
            cols <= tex.width,
            rows <= tex.height,
            n == cols * rows,
            k <= n,
            forall|u: int| 0 <= u < cols ==> #[trigger] (u * size) < tex.width,
            forall|u: int| 0 <= u < rows ==> #[trigger] (u * size) < tex.height,
            units@.len() == opaque_cells(*tex, size, k as nat).len(),
            forall|i: int|
                0 <= i < units@.len() ==> is_unit_of(
                    #[trigger] units@[i],
                    *tex,
                    size,
                    pad,
                    cell_x(*tex, size, opaque_cells(*tex, size, k as nat)[i]),
                    cell_y(*tex, size, opaque_cells(*tex, size, k as nat)[i]),
                ),
        decreases n - k,
    {
        proof {
            assert(k < rows * cols) by (nonlinear_arith)
                requires
                    k < cols * rows,
            ;
            lemma_div_in_grid(k as int, rows as int, cols as int);
        }
        let ghost prev = units@;
        let x = (k / rows) as u32;
        let y = (k % rows) as u32;
        assert(x == cell_x(*tex, size, k as int) && y == cell_y(*tex, size, k as int));
        assert(opaque_cells(*tex, size, (k + 1) as nat) == if all_clear(
            unit_content(*tex, size, x as int, y as int),
        ) {
            opaque_cells(*tex, size, k as nat)
        } else {
            opaque_cells(*tex, size, k as nat).push(k as int)
        });
        if let Some(unit) = dice_at(x, y, ctx) {
            units.push(unit);
            assert forall|i: int| 0 <= i < units@.len() implies is_unit_of(
                #[trigger] units@[i],
                *tex,
                size,
                pad,
                cell_x(*tex, size, opaque_cells(*tex, size, (k + 1) as nat)[i]),
                cell_y(*tex, size, opaque_cells(*tex, size, (k + 1) as nat)[i]),
            ) by {
                if i < prev.len() {
                    assert(units@[i] == prev[i]);
                }
            }
        }
        k += 1;
    }
    if units.len() == 0 {
        return None;
    }
    let unique = unique_hashes(&units);
    Some(
        DicedTexture {
            id: ctx.sprite.id.clone(),
            size: USize::new(tex.width, tex.height),
            units,
            unique,
        },
    )
}

/// Distinct hashes of the units, ascending.
fn unique_hashes(units: &Vec<DicedUnit>) -> (r: Vec<u64>)
    ensures
        is_unique_of(r@, units@),
{
    let mut all: Vec<u64> = Vec::new();
    let mut i: usize = 0;
    while i < units.len()
        invariant
            i <= units@.len(),
            all@.len() == i,
            forall|j: int| 0 <= j < i ==> all@[j] == (#[trigger] units@[j]).hash,
        decreases units@.len() - i,
    {
        all.push(units[i].hash);
        i += 1;
    }
    assert forall|h: u64| all@.contains(h) <==> holds_hash(units@, h) by {
        if all@.contains(h) {
            let j = choose|j: int| 0 <= j < all@.len() && all@[j] == h;
            assert(units@[j].hash == h);
        }
        if holds_hash(units@, h) {
            let j = choose|j: int| 0 <= j < units@.len() && units@[j].hash == h;
            assert(all@[j] == h);
        }
    }
    let ghost unsorted = all@;
    sort_ascending(&mut all);
    assert forall|h: u64| all@.contains(h) <==> holds_hash(units@, h) by {
        vstd::seq_lib::to_multiset_contains(all@, h);
        vstd::seq_lib::to_multiset_contains(unsorted, h);
    }
    let mut unique: Vec<u64> = Vec::new();
    let mut i: usize = 0;
    while i < all.len()
        invariant
            i <= all@.len(),
            forall|a: int, b: int| 0 <= a < b < all@.len() ==> all@[a] <= all@[b],
            strictly_ascending(unique@),
            i > 0 ==> unique@.len() > 0 && unique@.last() == all@[i - 1],
            i == 0 ==> unique@.len() == 0,
            forall|h: u64| unique@.contains(h) <==> all@.take(i as int).contains(h),
        decreases all@.len() - i,
    {
        let h = all[i];
        let ghost prev = unique@;
        let ghost t0 = all@.take(i as int);
        let ghost t1 = all@.take(i + 1);
        if unique.len() == 0 || unique[unique.len() - 1] != h {
            unique.push(h);
            assert forall|h2: u64| unique@.contains(h2) <==> prev.contains(h2) || h2 == h by {
                if unique@.contains(h2) {
                    let j = choose|j: int| 0 <= j < unique@.len() && unique@[j] == h2;
                    if j < prev.len() {
                        assert(prev[j] == h2);
                    }
                }
                if prev.contains(h2) {
                    let j = choose|j: int| 0 <= j < prev.len() && prev[j] == h2;
                    assert(unique@[j] == h2);
                }
                if h2 == h {
                    assert(unique@[prev.len() as int] == h);
                }
            }
        } else {
            assert(unique@[unique@.len() - 1] == h);
            assert(unique@.contains(h));
            assert(t0[i - 1] == h);
            assert(t0.contains(h));
        }
        assert(t1 =~= t0.push(h));
        assert forall|h2: u64| t1.contains(h2) <==> t0.contains(h2) || h2 == h by {
            if t1.contains(h2) {
                let j = choose|j: int| 0 <= j < t1.len() && t1[j] == h2;
                if j < t0.len() {
                    assert(t0[j] == h2);
                }
            }
            if t0.contains(h2) {
                let j = choose|j: int| 0 <= j < t0.len() && t0[j] == h2;
                assert(t1[j] == h2);
            }
            if h2 == h {
                assert(t1[i as int] == h);
            }
        }
        assert forall|h2: u64| unique@.contains(h2) <==> t1.contains(h2) by {
            assert(prev.contains(h2) <==> t0.contains(h2));
        }
        i += 1;
    }
    assert(all@.take(i as int) =~= all@);
    unique
}

/// Dices the unit at grid cell `(unit_x, unit_y)`; `None` when it is fully transparent.
pub fn dice_at(unit_x: u32, unit_y: u32, ctx: &Context) -> (r: Option<DicedUnit>)
    requires
        ctx.wf(),
        (unit_x as int) * (ctx.size as int) < ctx.sprite.texture.width,
        (unit_y as int) * (ctx.size as int) < ctx.sprite.texture.height,
    ensures
        r is None <==> all_clear(
            unit_content(ctx.sprite.texture, ctx.size as int, unit_x as int, unit_y as int),
        ),
        r matches Some(u) ==> is_unit_of(
            u,
            ctx.sprite.texture,
            ctx.size as int,
            ctx.pad as int,
            unit_x as int,
            unit_y as int,
        ),
{
    let tex = &ctx.sprite.texture;
    let s = ctx.size;
    let p = ctx.pad;
    proof {
        assert(s * s <= (s + 2 * p) * (s + 2 * p) && (s + 2 * p) < 0x1_0000_0000) by (
        nonlinear_arith)
            requires
                (s + 2 * p) * (s + 2 * p) <= usize::MAX,
                usize::MAX <= u64::MAX,
                s > 0,
                p >= 0,
        ;
    }
    let unit_rect = IRect {
        x: unit_x as i64 * s as i64,
        y: unit_y as i64 * s as i64,
        width: s,
        height: s,
    };
    let unit_pixels = get_pixels(&unit_rect, tex);
    let mut clear = true;
    let mut i: usize = 0;
    while i < unit_pixels.len()
        invariant
            i <= unit_pixels@.len(),
            clear <==> all_clear(unit_pixels@.take(i as int)),
        decreases unit_pixels@.len() - i,
    {
        assert(unit_pixels@.take(i + 1).drop_last() =~= unit_pixels@.take(i as int));
        if unit_pixels[i].alpha != 0 {
            clear = false;
            assert(unit_pixels@.take(i + 1)[i as int].alpha != 0);
        }
        i += 1;
    }
    assert(unit_pixels@.take(i as int) =~= unit_pixels@);
    if clear {
        return None;
    }
    let hash = hash(unit_pixels.as_slice());
    let rect = crop_over_borders(&unit_rect, tex);
    let padded_rect = pad_rect(&unit_rect, p);
    let pixels = get_pixels(&padded_rect, tex);
    Some(DicedUnit { rect, pixels, hash })
}

proof fn lemma_opaque_cells_len(tex: Texture, size: int, k: nat)
    ensures
        opaque_cells(tex, size, k).len() <= k,
        opaque_cells(tex, size, k).len() == k <==> forall|c: int|
            0 <= c < k ==> !all_clear(
                #[trigger] unit_content(tex, size, cell_x(tex, size, c), cell_y(tex, size, c)),
            ),
    decreases k,
{
    if k > 0 {
        lemma_opaque_cells_len(tex, size, (k - 1) as nat);
    }
}

/// The kept cells among the first `k` are indexes below `k`.
pub(crate) proof fn lemma_opaque_cells_range(tex: Texture, size: int, k: nat)
    ensures
        forall|i: int|
            0 <= i < opaque_cells(tex, size, k).len() ==> 0 <= #[trigger] opaque_cells(
                tex,
                size,
                k,
            )[i] < k,
    decreases k,
{
    if k > 0 {
        lemma_opaque_cells_range(tex, size, (k - 1) as nat);
        let prev = opaque_cells(tex, size, (k - 1) as nat);
        assert forall|i: int| 0 <= i < opaque_cells(tex, size, k).len() implies 0
            <= #[trigger] opaque_cells(tex, size, k)[i] < k by {
            if i < prev.len() {
                assert(opaque_cells(tex, size, k)[i] == prev[i]);
            }
        }
    }
}

/// Dicing a texture keeps at most one unit per grid cell, `⌈W/S⌉·⌈H/S⌉` in all, and exactly
/// that many when no cell is fully transparent.
pub proof fn unit_count(tex: Texture, size: int)
    requires
        size > 0,
    ensures
        kept_cells(tex, size).len() <= cell_count(tex, size),
        kept_cells(tex, size).len() == cell_count(tex, size) <==> forall|c: int|
            0 <= c < cell_count(tex, size) ==> !all_clear(
                #[trigger] unit_content(tex, size, cell_x(tex, size, c), cell_y(tex, size, c)),
            ),
{
    lemma_grid_side(tex.width as int, size);
    lemma_grid_side(tex.height as int, size);
    assert(cell_count(tex, size) >= 0) by (nonlinear_arith)
        requires
            grid_cols(tex, size) >= 0,
            grid_rows(tex, size) >= 0,
    ;
    lemma_opaque_cells_len(tex, size, cell_count(tex, size) as nat);
}

/// A unit as large as the texture in both directions covers it with a single cell: one
/// unit, or none when the texture is fully transparent.
pub proof fn single_cell_when_unit_exceeds_texture(tex: Texture, size: int)
    requires
        0 < tex.width < size,
        0 < tex.height < size,
    ensures
        cell_count(tex, size) == 1,
        kept_cells(tex, size).len() == (if all_clear(unit_content(tex, size, 0, 0)) {
            0int
        } else {
            1int
        }),
{
    assert(grid_cols(tex, size) == 1) by {
        lemma_fundamental_div_mod(tex.width + size - 1, size);
        lemma_mod_pos_bound(tex.width + size - 1, size);
        let q = grid_cols(tex, size);
        let r = (tex.width + size - 1) % size;
        assert(q == 1) by (nonlinear_arith)
            requires
                tex.width + size - 1 == size * q + r,
                0 <= r < size,
                0 < tex.width < size,
        ;
    }
    assert(grid_rows(tex, size) == 1) by {
        lemma_fundamental_div_mod(tex.height + size - 1, size);
        lemma_mod_pos_bound(tex.height + size - 1, size);
        let q = grid_rows(tex, size);
        let r = (tex.height + size - 1) % size;
        assert(q == 1) by (nonlinear_arith)
            requires
                tex.height + size - 1 == size * q + r,
                0 <= r < size,
                0 < tex.height < size,
        ;
    }
    assert(cell_x(tex, size, 0) == 0 && cell_y(tex, size, 0) == 0);
    assert(opaque_cells(tex, size, 0).len() == 0);
}

/// Two strictly ascending sequences with the same elements are equal.
pub proof fn lemma_ascending_unique(s1: Seq<u64>, s2: Seq<u64>)
    requires
        strictly_ascending(s1),
        strictly_ascending(s2),
        forall|h: u64| s1.contains(h) <==> s2.contains(h),
    ensures
        s1 == s2,
    decreases s1.len(),
{
    if s1.len() == 0 {
        if s2.len() > 0 {
            assert(s2.contains(s2[0]));
        }
        assert(s1 =~= s2);
    } else {
        assert(s1.contains(s1[0]));
        assert(s2.len() > 0);
        assert(s2.contains(s2[0]));
        assert(s1[0] == s2[0]) by {
            let j = choose|j: int| 0 <= j < s2.len() && s2[j] == s1[0];
            let i = choose|i: int| 0 <= i < s1.len() && s1[i] == s2[0];
            if j > 0 {
                assert(s2[0] < s2[j]);
            }
            if i > 0 {
                assert(s1[0] < s1[i]);
            }
        }
        let t1 = s1.drop_first();
        let t2 = s2.drop_first();
        assert forall|h: u64| t1.contains(h) <==> t2.contains(h) by {
            if t1.contains(h) {
                let i = choose|i: int| 0 <= i < t1.len() && t1[i] == h;
                assert(s1[i + 1] == h);
                assert(s1.contains(h));
                let j = choose|j: int| 0 <= j < s2.len() && s2[j] == h;
                assert(s1[0] < h);
                assert(j > 0);
                assert(t2[j - 1] == h);
            }
            if t2.contains(h) {
                let j = choose|j: int| 0 <= j < t2.len() && t2[j] == h;
                assert(s2[j + 1] == h);
                assert(s2.contains(h));
                let i = choose|i: int| 0 <= i < s1.len() && s1[i] == h;
                assert(s2[0] < h);
                assert(i > 0);
                assert(t1[i - 1] == h);
            }
        }
        lemma_ascending_unique(t1, t2);
        assert(s1 =~= s2) by {
            assert forall|i: int| 0 <= i < s1.len() implies s1[i] == s2[i] by {
                if i > 0 {
                    assert(s1[i] == t1[i - 1]);
                    assert(s2[i] == t2[i - 1]);
                }
            }
        }
    }
}

/// The unit hashes of a sprite, and so its set of distinct hashes, do not depend on the
/// padding it was diced with.
pub proof fn padding_does_not_change_hashes(
    t1: DicedTexture,
    t2: DicedTexture,
    sprite: SourceSprite,
    size: int,
    pad1: int,
    pad2: int,
)
    requires
        is_diced_texture(t1, sprite, size, pad1),
        is_diced_texture(t2, sprite, size, pad2),
    ensures
        t1.units@.len() == t2.units@.len(),
        forall|i: int| 0 <= i < t1.units@.len() ==> t1.units@[i].hash == t2.units@[i].hash,
        t1.unique@ == t2.unique@,
{
    let cells = kept_cells(sprite.texture, size);
    assert forall|i: int| 0 <= i < t1.units@.len() implies t1.units@[i].hash
        == t2.units@[i].hash by {
        assert(is_unit_of(
            t1.units@[i],
            sprite.texture,
            size,
            pad1,
            cell_x(sprite.texture, size, cells[i]),
            cell_y(sprite.texture, size, cells[i]),
        ));
        assert(is_unit_of(
            t2.units@[i],
            sprite.texture,
            size,
            pad2,
            cell_x(sprite.texture, size, cells[i]),
            cell_y(sprite.texture, size, cells[i]),
        ));
    }
    assert forall|h: u64| holds_hash(t1.units@, h) <==> holds_hash(t2.units@, h) by {
        if holds_hash(t1.units@, h) {
            let i = choose|i: int| 0 <= i < t1.units@.len() && t1.units@[i].hash == h;
            assert(t2.units@[i].hash == h);
        }
        if holds_hash(t2.units@, h) {
            let i = choose|i: int| 0 <= i < t2.units@.len() && t2.units@[i].hash == h;
            assert(t1.units@[i].hash == h);
        }
    }
    lemma_ascending_unique(t1.unique@, t2.unique@);
}

/// Units whose non-padded pixels are identical carry the same hash, whatever texture,
/// cell and padding they were diced from.
pub proof fn equal_content_equal_hash(
    u1: DicedUnit,
    tex1: Texture,
    x1: int,
    y1: int,
    pad1: int,
    u2: DicedUnit,
    tex2: Texture,
    x2: int,
    y2: int,
    pad2: int,
    size: int,
)
    requires
        is_unit_of(u1, tex1, size, pad1, x1, y1),
        is_unit_of(u2, tex2, size, pad2, x2, y2),
        unit_content(tex1, size, x1, y1) == unit_content(tex2, size, x2, y2),
    ensures
        u1.hash == u2.hash,
{
}

/// A unit that reaches past the right (bottom) texture edge is cropped to the pixels left
/// before that edge; any other unit keeps the full unit size.
pub proof fn edge_units_are_cropped(u: DicedUnit, tex: Texture, size: int, pad: int, ux: int, uy: int)
    requires
        is_unit_of(u, tex, size, pad, ux, uy),
        0 <= ux * size < tex.width,
        0 <= uy * size < tex.height,
        0 < size <= u32::MAX,
    ensures
        ux * size + size > tex.width ==> u.rect.width < size && u.rect.width == tex.width - ux
            * size,
        ux * size + size <= tex.width ==> u.rect.width == size,
        uy * size + size > tex.height ==> u.rect.height < size && u.rect.height == tex.height
            - uy * size,
        uy * size + size <= tex.height ==> u.rect.height == size,
{
}

} // verus!
