//! Packs the distinct units of diced textures into atlas textures.

use crate::dicer::{
    ceil_div, cell_count, cell_x, cell_y, grid_cols, grid_rows, holds_hash, is_diced_texture,
    is_unique_of, is_unit_of, kept_cells, lemma_div_in_grid, lemma_grid_side,
    lemma_opaque_cells_range, sort_ascending, strictly_ascending,
};
use crate::models::{
    Atlas, DicedTexture, DicedUnit, Error, Pixel, Prefs, SourceSprite, SpecError, Texture, URect,
    USize,
};
use std::collections::HashMap;
use vstd::arithmetic::div_mod::{
    lemma_div_is_ordered, lemma_div_multiples_vanish, lemma_fundamental_div_mod, lemma_mod_pos_bound,
};
use vstd::multiset::Multiset;
use vstd::prelude::*;

verus! {

broadcast use vstd::std_specs::hash::group_hash_axioms, vstd::seq_lib::group_to_multiset_ensures;

/// A diced texture the packer can place: padded blocks of the configured size, source
/// rectangles no larger than a unit, and its distinct hashes listed ascending.
pub open spec fn is_packable(t: DicedTexture, unit_size: int, pad: int) -> bool {
    &&& is_unique_of(t.unique@, t.units@)
    &&& forall|j: int|
        0 <= j < t.units@.len() ==> {
            &&& (#[trigger] t.units@[j]).pixels@.len() == (unit_size + 2 * pad) * (unit_size + 2
                * pad)
            &&& t.units@[j].rect.width <= unit_size
            &&& t.units@[j].rect.height <= unit_size
        }
}

/// Number of distinct hashes of `unique` missing from `pool`.
pub open spec fn new_units(unique: Seq<u64>, pool: Set<u64>) -> nat {
    unique.to_set().difference(pool).len()
}

/// `(a, j)` locates the first unit with hash `h` in `ts`, texture by texture, unit by unit.
pub open spec fn is_first_unit(ts: Seq<DicedTexture>, h: u64, a: int, j: int) -> bool {
    &&& 0 <= a < ts.len()
    &&& 0 <= j < ts[a].units@.len()
    &&& ts[a].units@[j].hash == h
    &&& forall|a2: int, j2: int|
        0 <= a2 < a && 0 <= j2 < ts[a2].units@.len() ==> (#[trigger] ts[a2].units@[j2]).hash != h
    &&& forall|j2: int| 0 <= j2 < j ==> (#[trigger] ts[a].units@[j2]).hash != h
}

/// Location of the first unit with hash `h` in `ts`.
pub open spec fn first_unit(ts: Seq<DicedTexture>, h: u64) -> (int, int) {
    choose|p: (int, int)| is_first_unit(ts, h, p.0, p.1)
}

/// Hashes of all the units of the textures.
pub open spec fn placed_hashes(ts: Seq<DicedTexture>) -> Set<u64> {
    Set::new(|h: u64| exists|a: int| 0 <= a < ts.len() && holds_hash(ts[a].units@, h))
}

/// Smallest `s` from `from` upwards with `s·s >= n`.
pub open spec fn sqrt_from(n: int, from: int) -> int
    decreases n - from,
{
    if from >= n || from * from >= n {
        from
    } else {
        sqrt_from(n, from + 1)
    }
}

/// `⌈√n⌉`: the side of the smallest square grid with room for `n` cells.
pub open spec fn ceil_sqrt(n: int) -> int {
    sqrt_from(n, 0)
}

/// Smallest of `p, 2p, 4p, ...` that is at least `v`.
pub open spec fn pow2_from(v: int, p: int) -> int
    decreases (if p < v { v - p } else { 0 }),
{
    if p <= 0 || p >= v {
        p
    } else {
        pow2_from(v, 2 * p)
    }
}

/// Smallest power of two that is at least `v`.
pub open spec fn next_pow2(v: int) -> int {
    pow2_from(v, 1)
}

/// Grid in units, `(width, height)`, for `n` cells: widths `w, w - 1, ..., 1` are tried in
/// turn, each with the least height that holds `n`, until that height no longer fits the
/// limit; a grid replaces `best` only when its area is smaller.
pub open spec fn compact_grid(n: int, pus: int, limit: int, w: int, best: (int, int)) -> (int, int)
    decreases w,
{
    if w <= 0 {
        best
    } else {
        let h = ceil_div(n, w);
        if h * pus > limit {
            best
        } else {
            compact_grid(
                n,
                pus,
                limit,
                w - 1,
                if w * h < best.0 * best.1 {
                    (w, h)
                } else {
                    best
                },
            )
        }
    }
}

/// Atlas dimensions in pixels, `(width, height)`, for `n` distinct units of padded side
/// `pus`.
pub open spec fn atlas_size(n: int, pus: int, limit: int, square: bool, pot: bool) -> (int, int) {
    let s = ceil_sqrt(n);
    if pot {
        (next_pow2(s * pus), next_pow2(s * pus))
    } else if square {
        (s * pus, s * pus)
    } else {
        let g = compact_grid(n, pus, limit, s, (s, s));
        (g.0 * pus, g.1 * pus)
    }
}

proof fn lemma_sqrt_from(n: int, from: int)
    requires
        n >= 0,
        from >= 0,
        from == 0 || (from - 1) * (from - 1) < n,
    ensures
        sqrt_from(n, from) >= from,
        sqrt_from(n, from) * sqrt_from(n, from) >= n,
        sqrt_from(n, from) == 0 || (sqrt_from(n, from) - 1) * (sqrt_from(n, from) - 1) < n,
    decreases n - from,
{
    if from >= n || from * from >= n {
        assert(from * from >= n) by (nonlinear_arith)
            requires
                from >= n || from * from >= n,
                from >= 0,
                n >= 0,
                from == 0 || (from - 1) * (from - 1) < n,
        ;
    } else {
        lemma_sqrt_from(n, from + 1);
    }
}

/// `⌈√n⌉` is at most the side of any square grid holding `n` cells.
proof fn lemma_ceil_sqrt_bound(n: int, m: int)
    requires
        0 <= n <= m * m,
        m >= 0,
    ensures
        0 <= ceil_sqrt(n) <= m,
        ceil_sqrt(n) * ceil_sqrt(n) >= n,
{
    lemma_sqrt_from(n, 0);
    let r = ceil_sqrt(n);
    assert(r <= m) by (nonlinear_arith)
        requires
            r >= 0,
            r == 0 || (r - 1) * (r - 1) < n,
            n <= m * m,
            m >= 0,
    ;
}

proof fn lemma_pow2_from(v: int, p: int)
    requires
        p >= 1,
    ensures
        pow2_from(v, p) >= p,
        pow2_from(v, p) >= v,
        p < v ==> pow2_from(v, p) < 2 * v,
    decreases (if p < v { v - p } else { 0 }),
{
    if p < v {
        lemma_pow2_from(v, 2 * p);
    }
}

/// A height that fits the limit fits the units a row can hold.
proof fn lemma_fits_row(h: int, pus: int, limit: int)
    requires
        pus > 0,
        limit >= 0,
        h >= 0,
        h * pus <= limit,
    ensures
        h <= limit / pus,
        (limit / pus) * pus <= limit,
{
    vstd::arithmetic::div_mod::lemma_fundamental_div_mod(limit, pus);
    vstd::arithmetic::div_mod::lemma_mod_pos_bound(limit, pus);
    let q = limit / pus;
    let r = limit % pus;
    assert(h <= q && q * pus <= limit) by (nonlinear_arith)
        requires
            limit == pus * q + r,
            0 <= r < pus,
            h * pus <= limit,
            h >= 0,
    ;
}

/// The distinct hashes in ascending order.
pub open spec fn sorted_keys(keys: Set<u64>) -> Seq<u64> {
    choose|s: Seq<u64>|
        strictly_ascending(s) && forall|h: u64| s.contains(h) <==> keys.contains(h)
}

/// The unit whose pixels an atlas holds for hash `h`: the first one with that hash.
pub open spec fn source_unit(ts: Seq<DicedTexture>, h: u64) -> DicedUnit {
    let p = first_unit(ts, h);
    ts[p.0].units@[p.1]
}

/// Pixel `k` (row-major) of an atlas `w` pixels wide holding the units of `ts` for
/// `keys`: slot `b` holds the padded block of the unit for `keys[b]`, slots filling rows
/// of `w / pus` blocks left to right, top to bottom; pixels outside every slot are clear.
pub open spec fn atlas_pixel(ts: Seq<DicedTexture>, keys: Seq<u64>, w: int, pus: int, k: int) -> Pixel {
    let px = k % w;
    let py = k / w;
    let upr = w / pus;
    let col = px / pus;
    let row = py / pus;
    let b = row * upr + col;
    if col < upr && b < keys.len() {
        source_unit(ts, keys[b]).pixels@[(py % pus) * pus + px % pus]
    } else {
        Pixel::clear()
    }
}

/// Non-padded interior, in atlas pixels, of slot `b` on an atlas `w` pixels wide, cut to
/// the size of the unit's cropped source rectangle.
pub open spec fn slot_rect(ts: Seq<DicedTexture>, keys: Seq<u64>, w: int, pus: int, pad: int, b: int) -> URect {
    let upr = w / pus;
    let u = source_unit(ts, keys[b]);
    URect {
        x: ((b % upr) * pus + pad) as u32,
        y: ((b / upr) * pus + pad) as u32,
        width: u.rect.width,
        height: u.rect.height,
    }
}

/// Textures among the first `k` of `ts` whose flag is unset, in order.
pub open spec fn unplaced(ts: Seq<DicedTexture>, flags: Seq<bool>, k: nat) -> Seq<DicedTexture>
    decreases k,
{
    if k == 0 {
        Seq::empty()
    } else {
        let prev = unplaced(ts, flags, (k - 1) as nat);
        if flags[k - 1] {
            prev
        } else {
            prev.push(ts[k - 1])
        }
    }
}

/// `a` is an atlas of the textures it holds, laid out under the given settings.
pub open spec fn is_atlas_of(a: Atlas, unit_size: int, pad: int, limit: int, square: bool, pot: bool) -> bool {
    let ts = a.packed@;
    let keys = sorted_keys(placed_hashes(ts));
    let pus = unit_size + 2 * pad;
    let w = a.texture.width as int;
    let h = a.texture.height as int;
    &&& strictly_ascending(keys)
    &&& forall|x: u64| keys.contains(x) <==> placed_hashes(ts).contains(x)
    &&& (w, h) == atlas_size(keys.len() as int, pus, limit, square, pot)
    &&& a.texture.pixels@ == Seq::new((w * h) as nat, |k: int| atlas_pixel(ts, keys, w, pus, k))
    &&& forall|x: u64| a.rects@.contains_key(x) <==> placed_hashes(ts).contains(x)
    &&& forall|b: int|
        0 <= b < keys.len() ==> a.rects@[#[trigger] keys[b]] == slot_rect(
            ts,
            keys,
            w,
            pus,
            pad,
            b,
        )
    &&& keys.len() <= (limit / pus) * (limit / pus)
    &&& keys.len() <= (w / pus) * (h / pus)
}

/// Number of unset flags among the first `k`.
pub open spec fn count_unset(flags: Seq<bool>, k: nat) -> nat
    decreases k,
{
    if k == 0 {
        0
    } else {
        count_unset(flags, (k - 1) as nat) + if flags[k - 1] {
            0nat
        } else {
            1nat
        }
    }
}

/// Most units one atlas can hold under the preferences.
pub open spec fn capacity(prefs: Prefs) -> int {
    let upr = prefs.atlas_size_limit as int / prefs.padded_unit_size();
    upr * upr
}

/// Texture `i` is the greedy choice: not yet admitted, adding the fewest new units (the
/// first such texture), and still fitting the atlas.
pub open spec fn is_pick(ts: Seq<DicedTexture>, flags: Seq<bool>, pool: Set<u64>, count: int, cap: int, i: usize) -> bool {
    &&& i < ts.len()
    &&& !flags[i as int]
    &&& count + new_units(ts[i as int].unique@, pool) <= cap
    &&& forall|j: int|
        0 <= j < ts.len() && !flags[j] ==> new_units(ts[i as int].unique@, pool) <= new_units(
            (#[trigger] ts[j]).unique@,
            pool,
        )
    &&& forall|j: int|
        0 <= j < i && !flags[j] ==> new_units(ts[i as int].unique@, pool) < new_units(
            (#[trigger] ts[j]).unique@,
            pool,
        )
}

/// The greedy choice, if any texture fits.
pub open spec fn pick(ts: Seq<DicedTexture>, flags: Seq<bool>, pool: Set<u64>, count: int, cap: int) -> Option<usize> {
    if exists|i: usize| is_pick(ts, flags, pool, count, cap, i) {
        Some(choose|i: usize| is_pick(ts, flags, pool, count, cap, i))
    } else {
        None
    }
}

/// Admission order of one atlas round, continued from the given state for at most `fuel`
/// more admissions.
pub open spec fn round_from(
    ts: Seq<DicedTexture>,
    flags: Seq<bool>,
    pool: Set<u64>,
    count: int,
    cap: int,
    admitted: Seq<usize>,
    fuel: nat,
) -> Seq<usize>
    decreases fuel,
{
    if fuel == 0 {
        admitted
    } else {
        match pick(ts, flags, pool, count, cap) {
            None => admitted,
            Some(i) => round_from(
                ts,
                flags.update(i as int, true),
                pool.union(ts[i as int].unique@.to_set()),
                count + new_units(ts[i as int].unique@, pool),
                cap,
                admitted.push(i),
                (fuel - 1) as nat,
            ),
        }
    }
}

/// Indexes of the textures one atlas admits, in admission order, when it starts empty.
pub open spec fn greedy_round(ts: Seq<DicedTexture>, cap: int) -> Seq<usize> {
    round_from(
        ts,
        Seq::new(ts.len(), |i: int| false),
        Set::empty(),
        0,
        cap,
        Seq::empty(),
        ts.len(),
    )
}

/// Flags marking the admitted indexes among `n`.
pub open spec fn admitted_flags(admitted: Seq<usize>, n: nat) -> Seq<bool> {
    Seq::new(n, |i: int| admitted.contains(i as usize))
}

/// Textures of each atlas, atlas by atlas, that packing `ts` yields within `fuel` rounds;
/// it stops at a round that admits nothing.
pub open spec fn greedy_atlases(ts: Seq<DicedTexture>, cap: int, fuel: nat) -> Seq<Seq<DicedTexture>>
    decreases fuel,
{
    if fuel == 0 || ts.len() == 0 {
        Seq::empty()
    } else {
        let adm = greedy_round(ts, cap);
        if adm.len() == 0 {
            Seq::empty()
        } else {
            seq![adm.map_values(|i: usize| ts[i as int])] + greedy_atlases(
                unplaced(ts, admitted_flags(adm, ts.len()), ts.len()),
                cap,
                (fuel - 1) as nat,
            )
        }
    }
}

/// Packing `ts` meets a round that admits nothing while textures remain.
pub open spec fn greedy_fails(ts: Seq<DicedTexture>, cap: int, fuel: nat) -> bool
    decreases fuel,
{
    if fuel == 0 || ts.len() == 0 {
        false
    } else {
        let adm = greedy_round(ts, cap);
        if adm.len() == 0 {
            true
        } else {
            greedy_fails(
                unplaced(ts, admitted_flags(adm, ts.len()), ts.len()),
                cap,
                (fuel - 1) as nat,
            )
        }
    }
}

/// `atlases` is what packing `ts` under `prefs` yields: the greedy rounds, each laid out
/// as an atlas of its textures.
pub open spec fn is_packing_of(atlases: Seq<Atlas>, ts: Seq<DicedTexture>, prefs: Prefs) -> bool {
    let rounds = greedy_atlases(ts, capacity(prefs), ts.len());
    &&& atlases.len() == rounds.len()
    &&& forall|a: int|
        0 <= a < atlases.len() ==> {
            &&& (#[trigger] atlases[a]).packed@ == rounds[a]
            &&& atlases[a].packed@.len() > 0
            &&& is_atlas_of(
                atlases[a],
                prefs.unit_size as int,
                prefs.padding as int,
                prefs.atlas_size_limit as int,
                prefs.atlas_square,
                prefs.atlas_pot,
            )
        }
}

/// Packing state of one atlas round.
pub struct Context {
    pub square: bool,
    pub pot: bool,
    pub size_limit: u32,
    pub unit_size: u32,
    pub pad: u32,
    pub padded_unit_size: u64,
    /// Max. number of units single atlas is able to accommodate.
    pub unit_capacity: u64,
    /// Textures left to pack.
    pub to_pack: Vec<DicedTexture>,
    /// Whether each of `to_pack` is admitted to the current atlas.
    pub packed: Vec<bool>,
    /// Indexes into `to_pack` of the textures admitted to the current atlas, in order.
    pub admitted: Vec<usize>,
    /// Units of the current atlas mapped by hashes.
    pub units: HashMap<u64, UnitRef>,
    /// Hashes of the current atlas, in the order they were first met.
    pub order: Vec<u64>,
}

/// Reference to a diced unit of an admitted texture.
#[derive(Clone, Copy)]
pub struct UnitRef {
    /// Position of the texture in the admission order of the current atlas.
    pub tex_idx: usize,
    /// Index of the referenced diced unit inside that texture.
    pub unit_idx: usize,
}

impl Context {
    /// Admitted textures, in admission order.
    pub open spec fn admitted_textures(&self) -> Seq<DicedTexture> {
        Seq::new(self.admitted@.len(), |a: int| self.to_pack@[self.admitted@[a] as int])
    }

    /// Most units one atlas row can hold.
    pub open spec fn units_per_row_max(&self) -> int {
        self.size_limit as int / self.padded_unit_size as int
    }

    /// Settings the packer runs with.
    pub open spec fn settings_wf(&self) -> bool {
        &&& 0 < self.unit_size <= self.size_limit
        &&& self.pad <= self.unit_size
        &&& 4 * self.size_limit * self.size_limit <= usize::MAX
        &&& self.padded_unit_size == self.unit_size + 2 * self.pad
        &&& self.unit_capacity == self.units_per_row_max() * self.units_per_row_max()
        &&& forall|i: int|
            0 <= i < self.to_pack@.len() ==> is_packable(
                #[trigger] self.to_pack@[i],
                self.unit_size as int,
                self.pad as int,
            )
    }

    /// Consistency of the current atlas round.
    pub open spec fn wf(&self) -> bool {
        let ts = self.admitted_textures();
        &&& self.settings_wf()
        &&& self.packed@.len() == self.to_pack@.len()
        &&& self.admitted@.no_duplicates()
        &&& forall|a: int| 0 <= a < self.admitted@.len() ==> #[trigger] self.admitted@[a]
            < self.to_pack@.len()
        &&& forall|i: int|
            0 <= i < self.packed@.len() ==> (#[trigger] self.packed@[i] <==> self.admitted@.contains(
                i as usize,
            ))
        &&& forall|h: u64| #[trigger]
            self.units@.contains_key(h) ==> is_first_unit(
                ts,
                h,
                self.units@[h].tex_idx as int,
                self.units@[h].unit_idx as int,
            )
        &&& forall|a: int, j: int|
            0 <= a < ts.len() && 0 <= j < ts[a].units@.len() ==> self.units@.contains_key(
                (#[trigger] ts[a].units@[j]).hash,
            )
        &&& self.order@.no_duplicates()
        &&& forall|h: u64| self.order@.contains(h) <==> #[trigger] self.units@.contains_key(h)
        &&& self.order@.len() <= self.unit_capacity
    }

    /// Number of distinct hashes of texture `i` missing from the current atlas.
    pub open spec fn new_units_of(&self, i: int) -> nat {
        new_units(self.to_pack@[i].unique@, self.units@.dom())
    }
}

/// Counts the distinct hashes of `unique` that `pool` lacks.
fn count_new_units(unique: &Vec<u64>, pool: &HashMap<u64, UnitRef>) -> (r: usize)
    requires
        unique@.no_duplicates(),
    ensures
        r == new_units(unique@, pool@.dom()),
{
    let mut count: usize = 0;
    let mut k: usize = 0;
    assert(unique@.take(0).to_set().difference(pool@.dom()) =~= Set::empty());
    while k < unique.len()
        invariant
            k <= unique@.len(),
            unique@.no_duplicates(),
            count <= k,
            count == unique@.take(k as int).to_set().difference(pool@.dom()).len(),
        decreases unique@.len() - k,
    {
        let h = unique[k];
        let ghost before = unique@.take(k as int).to_set().difference(pool@.dom());
        let ghost after = unique@.take(k + 1).to_set().difference(pool@.dom());
        assert(unique@.take(k + 1) =~= unique@.take(k as int).push(h));
        proof {
            unique@.take(k as int).lemma_push_to_set_commute(h);
        }
        assert(!unique@.take(k as int).contains(h)) by {
            if unique@.take(k as int).contains(h) {
                let j = choose|j: int| 0 <= j < k && unique@.take(k as int)[j] == h;
                assert(unique@[j] == unique@[k as int]);
            }
        }
        if !pool.contains_key(&h) {
            assert(after =~= before.insert(h));
            assert(!before.contains(h));
            count += 1;
        } else {
            assert(after =~= before);
        }
        k += 1;
    }
    assert(unique@.take(k as int) =~= unique@);
    count
}

/// Picks the next texture to admit: the one adding the fewest new units (the first such
/// one), if that many still fit; `None` when no unadmitted texture fits.
pub fn find_packable_texture(ctx: &Context) -> (r: Option<usize>)
    requires
        ctx.wf(),
    ensures
        r matches Some(i) ==> {
            &&& i < ctx.to_pack@.len()
            &&& !ctx.packed@[i as int]
            &&& ctx.order@.len() + ctx.new_units_of(i as int) <= ctx.unit_capacity
            &&& forall|j: int|
                0 <= j < ctx.to_pack@.len() && !ctx.packed@[j] ==> ctx.new_units_of(i as int)
                    <= #[trigger] ctx.new_units_of(j)
            &&& forall|j: int|
                0 <= j < i && !ctx.packed@[j] ==> ctx.new_units_of(i as int)
                    < #[trigger] ctx.new_units_of(j)
        },
        r is None ==> forall|j: int|
            0 <= j < ctx.to_pack@.len() && !ctx.packed@[j] ==> ctx.order@.len()
                + #[trigger] ctx.new_units_of(j) > ctx.unit_capacity,
{
    let mut optimal: Option<usize> = None;
    let mut min_units: usize = 0;
    let mut idx: usize = 0;
    while idx < ctx.to_pack.len()
        invariant
            ctx.wf(),
            idx <= ctx.to_pack@.len(),
            optimal is None ==> forall|j: int| 0 <= j < idx ==> ctx.packed@[j],
            optimal matches Some(i) ==> {
                &&& i < idx
                &&& !ctx.packed@[i as int]
                &&& min_units == ctx.new_units_of(i as int)
                &&& forall|j: int|
                    0 <= j < idx && !ctx.packed@[j] ==> min_units <= #[trigger] ctx.new_units_of(
                        j,
                    )
                &&& forall|j: int|
                    0 <= j < i && !ctx.packed@[j] ==> min_units < #[trigger] ctx.new_units_of(j)
            },
        decreases ctx.to_pack@.len() - idx,
    {
        if !ctx.packed[idx] {
            proof {
                let t = ctx.to_pack@[idx as int];
                assert(is_packable(t, ctx.unit_size as int, ctx.pad as int));
                lemma_ascending_no_duplicates(t.unique@);
            }
            let units_to_pack = count_new_units(&ctx.to_pack[idx].unique, &ctx.units);
            if optimal.is_none() || units_to_pack < min_units {
                optimal = Some(idx);
                min_units = units_to_pack;
            }
        }
        idx += 1;
    }
    match optimal {
        None => None,
        Some(i) => {
            if (ctx.order.len() as u64) <= ctx.unit_capacity && (min_units as u64)
                <= ctx.unit_capacity - ctx.order.len() as u64 {
                Some(i)
            } else {
                None
            }
        },
    }
}

/// Admits texture `i` to the current atlas, adding its units that the atlas lacks.
fn place_texture(ctx: &mut Context, i: usize)
    requires
        old(ctx).wf(),
        i < old(ctx).to_pack@.len(),
        !old(ctx).packed@[i as int],
        old(ctx).order@.len() + old(ctx).new_units_of(i as int) <= old(ctx).unit_capacity,
    ensures
        final(ctx).wf(),
        final(ctx).to_pack@ == old(ctx).to_pack@,
        final(ctx).square == old(ctx).square,
        final(ctx).pot == old(ctx).pot,
        final(ctx).size_limit == old(ctx).size_limit,
        final(ctx).unit_size == old(ctx).unit_size,
        final(ctx).pad == old(ctx).pad,
        final(ctx).padded_unit_size == old(ctx).padded_unit_size,
        final(ctx).unit_capacity == old(ctx).unit_capacity,
        final(ctx).admitted@ == old(ctx).admitted@.push(i),
        final(ctx).packed@ == old(ctx).packed@.update(i as int, true),
        final(ctx).order@.len() == old(ctx).order@.len() + old(ctx).new_units_of(i as int),
        final(ctx).units@.dom() == old(ctx).units@.dom().union(
            old(ctx).to_pack@[i as int].unique@.to_set(),
        ),
{
    let ghost d0 = ctx.units@.dom();
    let ghost old_ts = ctx.admitted_textures();
    let ghost old_order_len = ctx.order@.len();
    let ghost old_admitted = ctx.admitted@;
    let ghost t = ctx.to_pack@[i as int];
    let ghost hashes = Set::new(|h: u64| holds_hash(t.units@, h));
    let ghost mut ins: Set<u64> = Set::empty();
    let a = ctx.admitted.len();
    let packed_len = ctx.packed.len();
    ctx.packed.set(i, true);
    ctx.admitted.push(i);
    proof {
        assert(ctx.packed@ == old(ctx).packed@.update(i as int, true));
        assert(ctx.admitted@ == old_admitted.push(i));
        assert(ctx.admitted_textures() =~= old_ts.push(t));
        assert forall|k: int| 0 <= k < ctx.packed@.len() implies (#[trigger] ctx.packed@[k]
            <==> ctx.admitted@.contains(k as usize)) by {
            let ku = k as usize;
            assert(ku as int == k);
            if k == i as int {
                assert(ctx.admitted@[a as int] == i);
                assert(ctx.admitted@.contains(ku));
            } else {
                assert(ctx.packed@[k] == old(ctx).packed@[k]);
                assert(old(ctx).packed@[k] <==> old_admitted.contains(ku));
                if old_admitted.contains(ku) {
                    let q = choose|q: int| 0 <= q < old_admitted.len() && old_admitted[q] == ku;
                    assert(ctx.admitted@[q] == ku);
                }
                if ctx.admitted@.contains(ku) {
                    let q = choose|q: int| 0 <= q < ctx.admitted@.len() && ctx.admitted@[q] == ku;
                    if q < old_admitted.len() {
                        assert(old_admitted[q] == ku);
                    }
                }
            }
        }
        assert(!old_admitted.contains(i));
        assert forall|h: u64| #[trigger] ctx.units@.contains_key(h) implies is_first_unit(
            ctx.admitted_textures(),
            h,
            ctx.units@[h].tex_idx as int,
            ctx.units@[h].unit_idx as int,
        ) by {
            assert(is_first_unit(old_ts, h, ctx.units@[h].tex_idx as int, ctx.units@[h].unit_idx as int));
        }
    }
    let mut j: usize = 0;
    while j < ctx.to_pack[i].units.len()
        invariant
            ctx.settings_wf(),
            ctx.to_pack@ == old(ctx).to_pack@,
            ctx.square == old(ctx).square,
            ctx.pot == old(ctx).pot,
            ctx.size_limit == old(ctx).size_limit,
            ctx.unit_size == old(ctx).unit_size,
            ctx.pad == old(ctx).pad,
            ctx.padded_unit_size == old(ctx).padded_unit_size,
            ctx.unit_capacity == old(ctx).unit_capacity,
            ctx.admitted@ == old(ctx).admitted@.push(i),
            ctx.packed@ == old(ctx).packed@.update(i as int, true),
            i < ctx.to_pack@.len(),
            t == ctx.to_pack@[i as int],
            a == old_ts.len(),
            ctx.admitted_textures() == old_ts.push(t),
            ctx.packed@.len() == ctx.to_pack@.len(),
            ctx.admitted@.no_duplicates(),
            forall|q: int| 0 <= q < ctx.admitted@.len() ==> #[trigger] ctx.admitted@[q]
                < ctx.to_pack@.len(),
            forall|k: int|
                0 <= k < ctx.packed@.len() ==> (#[trigger] ctx.packed@[k]
                    <==> ctx.admitted@.contains(k as usize)),
            j <= t.units@.len(),
            forall|h: u64| #[trigger]
                ctx.units@.contains_key(h) ==> is_first_unit(
                    old_ts.push(t),
                    h,
                    ctx.units@[h].tex_idx as int,
                    ctx.units@[h].unit_idx as int,
                ),
            forall|a2: int, j2: int|
                0 <= a2 < old_ts.len() && 0 <= j2 < old_ts[a2].units@.len()
                    ==> ctx.units@.contains_key((#[trigger] old_ts[a2].units@[j2]).hash),
            forall|j2: int| 0 <= j2 < j ==> ctx.units@.contains_key((#[trigger] t.units@[j2]).hash),
            ctx.units@.dom() == d0.union(ins),
            ins.disjoint(d0),
            ins.subset_of(hashes),
            forall|h: u64| hashes.contains(h) <==> holds_hash(t.units@, h),
            ins.finite(),
            ctx.order@.no_duplicates(),
            forall|h: u64| ctx.order@.contains(h) <==> #[trigger] ctx.units@.contains_key(h),
            ctx.order@.len() == old_order_len + ins.len(),
        decreases t.units@.len() - j,
    {
        let h = ctx.to_pack[i].units[j].hash;
        if !ctx.units.contains_key(&h) {
            proof {
                assert forall|a2: int, j2: int|
                    0 <= a2 < old_ts.len() + 1 && 0 <= j2 < old_ts.push(t)[a2].units@.len()
                        && (a2 < old_ts.len() || j2 < j) implies (#[trigger] old_ts.push(
                    t,
                )[a2].units@[j2]).hash != h by {
                    if a2 < old_ts.len() {
                        assert(old_ts.push(t)[a2] == old_ts[a2]);
                        assert(ctx.units@.contains_key(old_ts[a2].units@[j2].hash));
                    } else {
                        assert(ctx.units@.contains_key(t.units@[j2].hash));
                    }
                }
                assert(is_first_unit(old_ts.push(t), h, a as int, j as int));
                assert(holds_hash(t.units@, h));
                assert(hashes.contains(h));
                assert(!ctx.order@.contains(h));
            }
            let ghost prev_order = ctx.order@;
            let ghost prev_units = ctx.units@;
            ctx.units.insert(h, UnitRef { tex_idx: a, unit_idx: j });
            ctx.order.push(h);
            proof {
                assert(!ins.contains(h));
                ins = ins.insert(h);
                assert(ctx.units@.dom() =~= d0.union(ins));
                assert(ctx.order@ == prev_order.push(h));
                assert forall|h2: u64| ctx.order@.contains(h2) <==> #[trigger] ctx.units@.contains_key(h2) by {
                    if ctx.order@.contains(h2) && h2 != h {
                        let q = choose|q: int| 0 <= q < ctx.order@.len() && ctx.order@[q] == h2;
                        assert(prev_order[q] == h2);
                        assert(prev_order.contains(h2));
                    }
                    if h2 == h {
                        assert(ctx.order@[ctx.order@.len() - 1] == h);
                    }
                    if h2 != h && ctx.units@.contains_key(h2) {
                        assert(prev_units.contains_key(h2));
                        assert(prev_order.contains(h2));
                        let q = choose|q: int| 0 <= q < prev_order.len() && prev_order[q] == h2;
                        assert(ctx.order@[q] == h2);
                    }
                }
            }
        }
        j += 1;
    }
    proof {
        let u = t.unique@.to_set();
        assert(is_packable(t, ctx.unit_size as int, ctx.pad as int));
        assert(ins =~= u.difference(d0)) by {
            assert forall|h: u64| u.contains(h) && !d0.contains(h) implies ins.contains(h) by {
                assert(t.unique@.contains(h));
                assert(holds_hash(t.units@, h));
                let j2 = choose|j2: int| 0 <= j2 < t.units@.len() && t.units@[j2].hash == h;
                assert(ctx.units@.contains_key(t.units@[j2].hash));
            }
            assert forall|h: u64| ins.contains(h) implies u.contains(h) && !d0.contains(h) by {
                assert(hashes.contains(h));
                assert(t.unique@.contains(h));
            }
        }
        assert(ctx.units@.dom() =~= d0.union(u));
    }
}

/// Dimensions, in pixels, of the atlas holding the current units.
pub fn eval_atlas_size(ctx: &Context) -> (r: USize)
    requires
        ctx.wf(),
    ensures
        (r.width as int, r.height as int) == atlas_size(
            ctx.order@.len() as int,
            ctx.padded_unit_size as int,
            ctx.size_limit as int,
            ctx.square,
            ctx.pot,
        ),
        r.width * r.height <= usize::MAX,
        ctx.order@.len() <= (r.width as int / ctx.padded_unit_size as int) * (r.height as int
            / ctx.padded_unit_size as int),
{
    let n = ctx.order.len() as u64;
    let pus = ctx.padded_unit_size;
    let ghost upr = ctx.units_per_row_max();
    let ghost limit = ctx.size_limit as int;
    proof {
        lemma_fits_row(0, pus as int, limit);
        lemma_ceil_sqrt_bound(n as int, upr);
        assert(limit < 0x8000_0000) by (nonlinear_arith)
            requires
                limit >= 0,
                4 * limit * limit <= usize::MAX,
                usize::MAX <= u64::MAX,
        ;
        assert(limit * limit <= usize::MAX) by (nonlinear_arith)
            requires
                4 * limit * limit <= usize::MAX,
        ;
        assert(upr < 0x8000_0000 && upr * upr < 0x4000_0000_0000_0000) by (nonlinear_arith)
            requires
                0 <= upr * pus <= limit,
                pus >= 1,
                upr >= 0,
                limit < 0x8000_0000,
        ;
    }
    let mut s: u64 = 0;
    while s < n && s * s < n
        invariant
            n == ctx.order@.len(),
            0 <= s <= ceil_sqrt(n as int),
            ceil_sqrt(n as int) <= upr < 0x8000_0000,
            sqrt_from(n as int, s as int) == ceil_sqrt(n as int),
            s * s < 0x4000_0000_0000_0000,
        decreases n - s,
    {
        proof {
            lemma_sqrt_from(n as int, (s + 1) as int);
        }
        s += 1;
        proof {
            assert(s * s < 0x4000_0000_0000_0000) by (nonlinear_arith)
                requires
                    0 <= s < 0x8000_0000,
            ;
        }
    }
    assert(s == ceil_sqrt(n as int));
    proof {
        assert(s * pus <= upr * pus) by (nonlinear_arith)
            requires
                s <= upr,
                pus >= 0,
        ;
    }
    let side = s * pus;
    if ctx.pot {
        let mut p: u64 = 1;
        while p < side
            invariant
                1 <= p,
                side < 0x8000_0000,
                pow2_from(side as int, p as int) == next_pow2(side as int),
                p == 1 || p < 2 * side,
            decreases 2 * side - p,
        {
            p = p * 2;
        }
        proof {
            lemma_pow2_from(side as int, 1);
            assert(p * p <= 4 * limit * limit) by (nonlinear_arith)
                requires
                    1 <= p,
                    p == 1 || p < 2 * side,
                    side <= limit,
                    limit >= 1,
            ;
            lemma_div_is_ordered(side as int, p as int, pus as int);
            lemma_div_multiples_vanish(s as int, pus as int);
            assert(side == pus * s) by (nonlinear_arith)
                requires
                    side == s * pus,
            ;
            assert(n <= (p as int / pus as int) * (p as int / pus as int)) by (nonlinear_arith)
                requires
                    s * s >= n,
                    p as int / pus as int >= s,
                    s >= 0,
            ;
        }
        return USize::new(p as u32, p as u32);
    }
    if ctx.square {
        proof {
            assert(side * side <= limit * limit) by (nonlinear_arith)
                requires
                    0 <= side <= limit,
            ;
            lemma_div_multiples_vanish(s as int, pus as int);
            assert(side == pus * s) by (nonlinear_arith)
                requires
                    side == s * pus,
            ;
        }
        return USize::new(side as u32, side as u32);
    }
    proof {
        lemma_sqrt_from(n as int, 0);
    }
    let mut bw: u64 = s;
    let mut bh: u64 = s;
    let mut w: u64 = s;
    while w >= 1
        invariant
            n == ctx.order@.len(),
            n < 0x4000_0000_0000_0000,
            pus == ctx.padded_unit_size,
            pus >= 1,
            upr == limit / (pus as int),
            upr < 0x8000_0000,
            limit == ctx.size_limit,
            limit * limit <= usize::MAX,
            w <= s,
            s <= upr,
            pus <= 0x3_0000_0000,
            bw <= upr,
            bh <= upr,
            bw * bh >= n,
            compact_grid(n as int, pus as int, limit, s as int, (s as int, s as int))
                == compact_grid(n as int, pus as int, limit, w as int, (bw as int, bh as int)),
        decreases w,
    {
        let h = (n + w - 1) / w;
        proof {
            vstd::arithmetic::div_mod::lemma_fundamental_div_mod((n + w - 1) as int, w as int);
            vstd::arithmetic::div_mod::lemma_mod_pos_bound((n + w - 1) as int, w as int);
            let r = (n + w - 1) as int % w as int;
            assert(0 <= h <= n + w) by (nonlinear_arith)
                requires
                    n + w - 1 == w * h + r,
                    0 <= r,
                    w >= 1,
                    h == (n + w - 1) / (w as int),
            ;
            assert(h * pus < 0x1_0000_0000_0000_0000_0000_0000 && w * h
                < 0x1_0000_0000_0000_0000_0000_0000 && bw * bh < 0x1_0000_0000_0000_0000)
                by (nonlinear_arith)
                requires
                    0 <= h <= n + w,
                    n < 0x4000_0000_0000_0000,
                    1 <= w < 0x8000_0000,
                    0 <= pus <= 0x3_0000_0000,
                    0 <= bw < 0x8000_0000,
                    0 <= bh < 0x8000_0000,
            ;
        }
        if (h as u128) * (pus as u128) > ctx.size_limit as u128 {
            w = 0;
        } else {
            proof {
                lemma_fits_row(h as int, pus as int, limit);
            }
            if (w as u128) * (h as u128) < (bw as u128) * (bh as u128) {
                proof {
                    let r = (n + w - 1) as int % w as int;
                    assert(w * h >= n) by (nonlinear_arith)
                        requires
                            n + w - 1 == w * h + r,
                            r < w,
                    ;
                }
                bw = w;
                bh = h;
            }
            w -= 1;
        }
    }
    proof {
        assert(bw * pus <= upr * pus && bh * pus <= upr * pus) by (nonlinear_arith)
            requires
                bw <= upr,
                bh <= upr,
                pus >= 0,
        ;
        assert((bw * pus) * (bh * pus) <= limit * limit) by (nonlinear_arith)
            requires
                0 <= bw * pus <= limit,
                0 <= bh * pus <= limit,
        ;
        lemma_div_multiples_vanish(bw as int, pus as int);
        lemma_div_multiples_vanish(bh as int, pus as int);
        assert(bw * pus == pus * bw && bh * pus == pus * bh) by (nonlinear_arith);
    }
    USize::new((bw * pus) as u32, (bh * pus) as u32)
}

/// A hash has one first unit.
proof fn lemma_first_unit_unique(ts: Seq<DicedTexture>, h: u64, a: int, j: int)
    requires
        is_first_unit(ts, h, a, j),
    ensures
        first_unit(ts, h) == (a, j),
{
    assert(is_first_unit(ts, h, (a, j).0, (a, j).1));
    let p = first_unit(ts, h);
    assert(is_first_unit(ts, h, p.0, p.1));
    if p.0 < a {
        assert(ts[p.0].units@[p.1].hash != h);
    } else if a < p.0 {
        assert(ts[a].units@[j].hash != h);
    } else if p.1 < j {
        assert(ts[a].units@[p.1].hash != h);
    } else if j < p.1 {
        assert(ts[a].units@[j].hash != h);
    }
}

/// Lays the current units out on an atlas of the given size: sorted by hash, one padded
/// block per slot; returns the texture and each unit's interior rectangle by hash.
pub fn bake_atlas(ctx: &Context, size: &USize) -> (r: (Texture, HashMap<u64, URect>))
    requires
        ctx.wf(),
        (size.width as int, size.height as int) == atlas_size(
            ctx.order@.len() as int,
            ctx.padded_unit_size as int,
            ctx.size_limit as int,
            ctx.square,
            ctx.pot,
        ),
        size.width * size.height <= usize::MAX,
        ctx.order@.len() <= (size.width as int / ctx.padded_unit_size as int) * (size.height as int
            / ctx.padded_unit_size as int),
    ensures
        ({
            let ts = ctx.admitted_textures();
            let keys = sorted_keys(ctx.units@.dom());
            let pus = ctx.padded_unit_size as int;
            &&& r.0.width == size.width
            &&& r.0.height == size.height
            &&& r.0.pixels@ == Seq::new(
                (size.width * size.height) as nat,
                |k: int| atlas_pixel(ts, keys, size.width as int, pus, k),
            )
            &&& keys.len() == ctx.order@.len()
            &&& strictly_ascending(keys)
            &&& forall|h: u64| keys.contains(h) <==> ctx.units@.contains_key(h)
            &&& forall|h: u64| r.1@.contains_key(h) <==> ctx.units@.contains_key(h)
            &&& forall|b: int|
                0 <= b < keys.len() ==> r.1@[#[trigger] keys[b]] == slot_rect(
                    ts,
                    keys,
                    size.width as int,
                    pus,
                    ctx.pad as int,
                    b,
                )
        }),
{
    let ghost ts = ctx.admitted_textures();
    let pus = ctx.padded_unit_size;
    let width = size.width as u64;
    let height = size.height as u64;
    let units_per_row = width / pus;
    let ghost rows = height as int / pus as int;
    proof {
        lemma_fits_row(0, pus as int, width as int);
        lemma_fits_row(0, pus as int, height as int);
    }
    // Hash containers order their keys by chance; sorting gives identical atlases for
    // identical input.
    let mut keys: Vec<u64> = Vec::new();
    let mut i: usize = 0;
    while i < ctx.order.len()
        invariant
            i <= ctx.order@.len(),
            keys@ == ctx.order@.take(i as int),
        decreases ctx.order@.len() - i,
    {
        keys.push(ctx.order[i]);
        assert(ctx.order@.take(i + 1) =~= ctx.order@.take(i as int).push(ctx.order@[i as int]));
        i += 1;
    }
    assert(ctx.order@.take(i as int) =~= ctx.order@);
    let ghost unsorted = keys@;
    sort_ascending(&mut keys);
    proof {
        assert forall|h: u64| keys@.contains(h) <==> ctx.units@.contains_key(h) by {
            vstd::seq_lib::to_multiset_contains(keys@, h);
            vstd::seq_lib::to_multiset_contains(unsorted, h);
        }
        ctx.order@.lemma_multiset_has_no_duplicates();
        keys@.lemma_multiset_has_no_duplicates_conv();
        assert(strictly_ascending(keys@)) by {
            assert forall|a: int, b: int| 0 <= a < b < keys@.len() implies keys@[a] < keys@[b] by {
                assert(keys@[a] <= keys@[b]);
                assert(keys@[a] != keys@[b]);
            }
        }
        let chosen = sorted_keys(ctx.units@.dom());
        assert(strictly_ascending(chosen) && forall|h: u64|
            chosen.contains(h) <==> ctx.units@.dom().contains(h));
        crate::dicer::lemma_ascending_unique(keys@, chosen);
        assert(keys@.len() == unsorted.len()) by {
            vstd::seq_lib::to_multiset_len(keys@);
            vstd::seq_lib::to_multiset_len(unsorted);
        }
    }
    assert(keys@.len() == ctx.order@.len());
    let n = keys.len();
    // Slots, in key order, with the unit each one copies.
    let mut slots: Vec<UnitRef> = Vec::new();
    let mut rects: HashMap<u64, URect> = HashMap::new();
    let mut b: usize = 0;
    while b < n
        invariant
            ctx.wf(),
            ts == ctx.admitted_textures(),
            n == keys@.len(),
            keys@ == sorted_keys(ctx.units@.dom()),
            strictly_ascending(keys@),
            forall|h: u64| keys@.contains(h) <==> ctx.units@.contains_key(h),
            pus == ctx.padded_unit_size,
            width == size.width,
            units_per_row == width as int / pus as int,
            rows == size.height as int / pus as int,
            n <= units_per_row * rows,
            units_per_row * pus <= width,
            rows * pus <= size.height,
            b <= n,
            slots@.len() == b,
            forall|c: int|
                0 <= c < b ==> source_unit(ts, keys@[c]) == ts[(#[trigger] slots@[c]).tex_idx as int].units@[slots@[c].unit_idx as int],
            forall|c: int| 0 <= c < b ==> (#[trigger] slots@[c]).tex_idx < ts.len(),
            forall|c: int| 0 <= c < b ==> (#[trigger] slots@[c]).unit_idx < ts[slots@[c].tex_idx as int].units@.len(),
            forall|h: u64| rects@.contains_key(h) <==> keys@.take(b as int).contains(h),
            forall|c: int|
                0 <= c < b ==> rects@[#[trigger] keys@[c]] == slot_rect(
                    ts,
                    keys@,
                    width as int,
                    pus as int,
                    ctx.pad as int,
                    c,
                ),
        decreases n - b,
    {
        let h = keys[b];
        assert(keys@.contains(h));
        let unit_ref = match ctx.units.get(&h) {
            Some(r) => *r,
            None => {
                assert(false);
                UnitRef { tex_idx: 0, unit_idx: 0 }
            },
        };
        proof {
            lemma_first_unit_unique(ts, h, unit_ref.tex_idx as int, unit_ref.unit_idx as int);
            lemma_fundamental_div_mod(b as int, units_per_row as int);
            lemma_mod_pos_bound(b as int, units_per_row as int);
        }
        let tex = &ctx.to_pack[ctx.admitted[unit_ref.tex_idx]];
        let unit = &tex.units[unit_ref.unit_idx];
        assert(*unit == source_unit(ts, h));
        let column = b as u64 % units_per_row;
        let row = b as u64 / units_per_row;
        proof {
            let q = b as int / units_per_row as int;
            let r = b as int % units_per_row as int;
            assert(q < rows && r < units_per_row) by (nonlinear_arith)
                requires
                    b == units_per_row * q + r,
                    0 <= r < units_per_row,
                    0 <= b < n,
                    n <= units_per_row * rows,
            ;
            assert(r * pus + pus <= width && q * pus + pus <= size.height) by (nonlinear_arith)
                requires
                    0 <= r < units_per_row,
                    0 <= q < rows,
                    units_per_row * pus <= width,
                    rows * pus <= size.height,
                    pus >= 0,
            ;
        }
        let rect = URect {
            x: (column * pus + ctx.pad as u64) as u32,
            y: (row * pus + ctx.pad as u64) as u32,
            width: unit.rect.width,
            height: unit.rect.height,
        };
        let ghost prev_rects = rects@;
        rects.insert(h, rect);
        slots.push(unit_ref);
        proof {
            let t0 = keys@.take(b as int);
            let t1 = keys@.take(b + 1);
            assert(t1 =~= t0.push(h));
            assert forall|h2: u64| rects@.contains_key(h2) <==> t1.contains(h2) by {
                if t1.contains(h2) && h2 != h {
                    let q = choose|q: int| 0 <= q < t1.len() && t1[q] == h2;
                    assert(t0[q] == h2);
                    assert(t0.contains(h2));
                }
                if t0.contains(h2) {
                    let q = choose|q: int| 0 <= q < t0.len() && t0[q] == h2;
                    assert(t1[q] == h2);
                }
                if h2 == h {
                    assert(t1[b as int] == h);
                }
            }
            assert forall|c: int| 0 <= c < b + 1 implies rects@[#[trigger] keys@[c]] == slot_rect(
                ts,
                keys@,
                width as int,
                pus as int,
                ctx.pad as int,
                c,
            ) by {
                if c < b {
                    assert(keys@[c] < keys@[b as int]);
                    assert(rects@[keys@[c]] == prev_rects[keys@[c]]);
                }
            }
        }
        b += 1;
    }
    proof {
        assert(keys@.take(n as int) =~= keys@);
    }
    let total = size.width as usize * size.height as usize;
    let mut pixels: Vec<Pixel> = Vec::with_capacity(total);
    let mut k: usize = 0;
    while k < total
        invariant
            ctx.wf(),
            ts == ctx.admitted_textures(),
            n == keys@.len(),
            n == slots@.len(),
            pus == ctx.padded_unit_size,
            width == size.width,
            height == size.height,
            total == width * height,
            units_per_row == width as int / pus as int,
            units_per_row * pus <= width,
            forall|c: int|
                0 <= c < n ==> source_unit(ts, keys@[c]) == ts[(#[trigger] slots@[c]).tex_idx as int].units@[slots@[c].unit_idx as int],
            forall|c: int| 0 <= c < n ==> (#[trigger] slots@[c]).tex_idx < ts.len(),
            forall|c: int| 0 <= c < n ==> (#[trigger] slots@[c]).unit_idx < ts[slots@[c].tex_idx as int].units@.len(),
            keys@ == sorted_keys(ctx.units@.dom()),
            keys@.len() == ctx.order@.len(),
            strictly_ascending(keys@),
            forall|h: u64| keys@.contains(h) <==> ctx.units@.contains_key(h),
            forall|h: u64| rects@.contains_key(h) <==> ctx.units@.contains_key(h),
            forall|c: int|
                0 <= c < n ==> rects@[#[trigger] keys@[c]] == slot_rect(
                    ts,
                    keys@,
                    width as int,
                    pus as int,
                    ctx.pad as int,
                    c,
                ),
            k <= total,
            pixels@.len() == k,
            forall|q: int|
                0 <= q < k ==> pixels@[q] == atlas_pixel(ts, keys@, width as int, pus as int, q),
        decreases total - k,
    {
        proof {
            lemma_div_in_grid(k as int, width as int, height as int);
        }
        let px = k as u64 % width;
        let py = k as u64 / width;
        let column = px / pus;
        let row = py / pus;
        let mut pixel = Pixel::new(0, 0, 0, 0);
        if column < units_per_row {
            proof {
                assert(row <= py && column <= px) by {
                    lemma_div_is_ordered(0, py as int, pus as int);
                    lemma_fundamental_div_mod(py as int, pus as int);
                    lemma_fundamental_div_mod(px as int, pus as int);
                    lemma_mod_pos_bound(py as int, pus as int);
                    lemma_mod_pos_bound(px as int, pus as int);
                    assert(row <= py && column <= px) by (nonlinear_arith)
                        requires
                            py == pus * row + py % pus,
                            px == pus * column + px % pus,
                            py % pus >= 0,
                            px % pus >= 0,
                            pus >= 1,
                            row >= 0,
                            column >= 0,
                    ;
                }
                assert(row * units_per_row + column < 0x1_0000_0000_0000_0000) by (nonlinear_arith)
                    requires
                        0 <= row < 0x1_0000_0000,
                        0 <= units_per_row < 0x1_0000_0000,
                        0 <= column < 0x1_0000_0000,
                ;
            }
            let b = row * units_per_row + column;
            if b < n as u64 {
                let slot = slots[b as usize];
                let unit = &ctx.to_pack[ctx.admitted[slot.tex_idx]].units[slot.unit_idx];
                proof {
                    let t = ctx.to_pack@[ctx.admitted@[slot.tex_idx as int] as int];
                    assert(is_packable(t, ctx.unit_size as int, ctx.pad as int));
                    lemma_mod_pos_bound(py as int, pus as int);
                    lemma_mod_pos_bound(px as int, pus as int);
                    let a1 = py as int % pus as int;
                    let a2 = px as int % pus as int;
                    assert(a1 * pus + a2 < pus * pus) by (nonlinear_arith)
                        requires
                            0 <= a1 < pus,
                            0 <= a2 < pus,
                    ;
                }
                let block_len = unit.pixels.len();
                assert(unit.pixels@.len() == pus * pus) by {
                    let t = ctx.to_pack@[ctx.admitted@[slot.tex_idx as int] as int];
                    assert(t.units@[slot.unit_idx as int].pixels@.len() == pus * pus);
                }
                let j = (py % pus) * pus + px % pus;
                pixel = unit.pixels[j as usize];
            }
        }
        pixels.push(pixel);
        k += 1;
    }
    let texture = Texture { width: size.width, height: size.height, pixels };
    assert(texture.pixels@ =~= Seq::new(
        (size.width * size.height) as nat,
        |k: int| atlas_pixel(ts, keys@, size.width as int, pus as int, k),
    ));
    (texture, rects)
}

/// Moves the admitted textures out, in admission order, and opens a fresh round on the
/// others.
pub fn extract_packed_textures(ctx: &mut Context) -> (r: Vec<DicedTexture>)
    requires
        old(ctx).wf(),
    ensures
        r@ == old(ctx).admitted_textures(),
        final(ctx).to_pack@ == unplaced(
            old(ctx).to_pack@,
            old(ctx).packed@,
            old(ctx).to_pack@.len(),
        ),
        final(ctx).square == old(ctx).square,
        final(ctx).pot == old(ctx).pot,
        final(ctx).size_limit == old(ctx).size_limit,
        final(ctx).unit_size == old(ctx).unit_size,
        final(ctx).pad == old(ctx).pad,
        final(ctx).padded_unit_size == old(ctx).padded_unit_size,
        final(ctx).unit_capacity == old(ctx).unit_capacity,
        final(ctx).wf(),
        final(ctx).admitted@.len() == 0,
        final(ctx).units@.dom() == Set::<u64>::empty(),
        final(ctx).order@.len() == 0,
        forall|i: int| 0 <= i < final(ctx).packed@.len() ==> !#[trigger] final(ctx).packed@[i],
{
    let ghost orig = ctx.to_pack@;
    let ghost flags = ctx.packed@;
    let ghost ts = ctx.admitted_textures();
    let n = ctx.to_pack.len();
    let m = ctx.admitted.len();
    let mut pos: Vec<usize> = Vec::new();
    let mut i: usize = 0;
    while i < n
        invariant
            i <= n,
            pos@.len() == i,
        decreases n - i,
    {
        pos.push(0);
        i += 1;
    }
    let mut a: usize = 0;
    while a < m
        invariant
            ctx.wf(),
            n == ctx.to_pack@.len(),
            m == ctx.admitted@.len(),
            a <= m,
            pos@.len() == n,
            forall|q: int| 0 <= q < a ==> pos@[#[trigger] ctx.admitted@[q] as int] == q,
        decreases m - a,
    {
        let ghost prev = pos@;
        pos.set(ctx.admitted[a], a);
        proof {
            assert forall|q: int| 0 <= q < a + 1 implies pos@[#[trigger] ctx.admitted@[q] as int] == q by {
                if q < a {
                    assert(ctx.admitted@[q] != ctx.admitted@[a as int]);
                    assert(pos@[ctx.admitted@[q] as int] == prev[ctx.admitted@[q] as int]);
                }
            }
        }
        a += 1;
    }
    let mut slots: Vec<Option<DicedTexture>> = Vec::new();
    let mut a: usize = 0;
    while a < m
        invariant
            a <= m,
            slots@.len() == a,
            forall|q: int| 0 <= q < a ==> slots@[q] is None,
        decreases m - a,
    {
        slots.push(None);
        a += 1;
    }
    let mut all: Vec<DicedTexture> = Vec::new();
    std::mem::swap(&mut all, &mut ctx.to_pack);
    let mut remaining: Vec<DicedTexture> = Vec::new();
    let mut i: usize = 0;
    while i < n
        invariant
            orig.len() == n,
            flags.len() == n,
            flags == ctx.packed@,
            m == ctx.admitted@.len(),
            ctx.admitted@ == old(ctx).admitted@,
            ts == Seq::new(m as nat, |q: int| orig[ctx.admitted@[q] as int]),
            forall|q: int| 0 <= q < m ==> #[trigger] ctx.admitted@[q] < n,
            forall|k: int| 0 <= k < n ==> (#[trigger] flags[k] <==> ctx.admitted@.contains(k as usize)),
            forall|q: int| 0 <= q < m ==> pos@[#[trigger] ctx.admitted@[q] as int] == q,
            pos@.len() == n,
            forall|k: int|
                0 <= k < n ==> is_packable(
                    #[trigger] orig[k],
                    old(ctx).unit_size as int,
                    old(ctx).pad as int,
                ),
            i <= n,
            all@ == orig.subrange(i as int, n as int),
            remaining@ == unplaced(orig, flags, i as nat),
            slots@.len() == m,
            forall|q: int|
                0 <= q < m ==> (#[trigger] slots@[q] == if ctx.admitted@[q] < i {
                    Some(orig[ctx.admitted@[q] as int])
                } else {
                    None
                }),
        decreases n - i,
    {
        let t = all.remove(0);
        assert(t == orig[i as int]);
        if ctx.packed[i] {
            let a = pos[i];
            proof {
                assert(ctx.admitted@.contains(i));
                let q = choose|q: int| 0 <= q < m && ctx.admitted@[q] == i;
                assert(pos@[ctx.admitted@[q] as int] == q);
            }
            let ghost prev = slots@;
            slots.set(a, Some(t));
            proof {
                assert forall|q: int| 0 <= q < m implies (#[trigger] slots@[q] == if ctx.admitted@[q] < i + 1 {
                    Some(orig[ctx.admitted@[q] as int])
                } else {
                    None
                }) by {
                    if q != a {
                        assert(ctx.admitted@[q] != i) by {
                            if ctx.admitted@[q] == i {
                                assert(pos@[ctx.admitted@[q] as int] == q);
                            }
                        }
                        assert(slots@[q] == prev[q]);
                    }
                }
            }
        } else {
            remaining.push(t);
            proof {
                assert forall|q: int| 0 <= q < m implies (#[trigger] slots@[q] == if ctx.admitted@[q] < i + 1 {
                    Some(orig[ctx.admitted@[q] as int])
                } else {
                    None
                }) by {
                    if ctx.admitted@[q] == i {
                        assert(ctx.admitted@.contains(i));
                    }
                }
            }
        }
        assert(all@ =~= orig.subrange(i + 1, n as int));
        i += 1;
    }
    let mut out: Vec<DicedTexture> = Vec::new();
    let mut a: usize = 0;
    while a < m
        invariant
            a <= m,
            m == ctx.admitted@.len(),
            ts.len() == m,
            slots@.len() == m - a,
            forall|q: int| 0 <= q < m - a ==> #[trigger] slots@[q] == Some(ts[q + a]),
            out@ == ts.take(a as int),
        decreases m - a,
    {
        let ghost prev = slots@;
        let slot = slots.remove(0);
        match slot {
            Some(t) => {
                out.push(t);
            },
            None => {
                assert(false);
            },
        }
        proof {
            assert(ts.take(a + 1) =~= ts.take(a as int).push(ts[a as int]));
            assert forall|q: int| 0 <= q < m - (a + 1) implies #[trigger] slots@[q] == Some(ts[q + a + 1]) by {
                assert(slots@[q] == prev[q + 1]);
            }
        }
        a += 1;
    }
    assert(out@ =~= ts);
    let mut packed: Vec<bool> = Vec::new();
    let mut k: usize = 0;
    while k < remaining.len()
        invariant
            k <= remaining@.len(),
            packed@.len() == k,
            forall|q: int| 0 <= q < k ==> !#[trigger] packed@[q],
        decreases remaining@.len() - k,
    {
        packed.push(false);
        k += 1;
    }
    ctx.to_pack = remaining;
    ctx.packed = packed;
    ctx.admitted = Vec::new();
    ctx.units = HashMap::new();
    ctx.order = Vec::new();
    proof {
        lemma_unplaced_packable(orig, flags, n as nat, ctx.unit_size as int, ctx.pad as int);
        assert(ctx.admitted_textures() =~= Seq::<DicedTexture>::empty());
        assert(ctx.units@.dom() =~= Set::<u64>::empty());
    }
    out
}

proof fn lemma_unplaced_packable(ts: Seq<DicedTexture>, flags: Seq<bool>, k: nat, unit_size: int, pad: int)
    requires
        k <= ts.len(),
        k <= flags.len(),
        forall|i: int| 0 <= i < ts.len() ==> is_packable(#[trigger] ts[i], unit_size, pad),
    ensures
        forall|i: int|
            0 <= i < unplaced(ts, flags, k).len() ==> is_packable(
                #[trigger] unplaced(ts, flags, k)[i],
                unit_size,
                pad,
            ),
    decreases k,
{
    if k > 0 {
        lemma_unplaced_packable(ts, flags, (k - 1) as nat, unit_size, pad);
        let prev = unplaced(ts, flags, (k - 1) as nat);
        if !flags[k - 1] {
            assert forall|i: int| 0 <= i < prev.len() + 1 implies is_packable(
                #[trigger] prev.push(ts[k - 1])[i],
                unit_size,
                pad,
            ) by {
                if i < prev.len() {
                    assert(prev.push(ts[k - 1])[i] == prev[i]);
                }
            }
        }
    }
}

proof fn lemma_count_unset(flags: Seq<bool>, k: nat, i: int)
    requires
        k <= flags.len(),
        0 <= i < k,
        !flags[i],
    ensures
        count_unset(flags.update(i, true), k) + 1 == count_unset(flags, k),
        count_unset(flags, k) <= k,
    decreases k,
{
    if k - 1 > i {
        lemma_count_unset(flags, (k - 1) as nat, i);
    } else {
        lemma_count_unset_same(flags, flags.update(i, true), (k - 1) as nat);
        lemma_count_unset_bound(flags, (k - 1) as nat);
    }
}

proof fn lemma_count_unset_same(f1: Seq<bool>, f2: Seq<bool>, k: nat)
    requires
        k <= f1.len(),
        k <= f2.len(),
        forall|i: int| 0 <= i < k ==> f1[i] == f2[i],
    ensures
        count_unset(f1, k) == count_unset(f2, k),
    decreases k,
{
    if k > 0 {
        lemma_count_unset_same(f1, f2, (k - 1) as nat);
    }
}

proof fn lemma_count_unset_bound(flags: Seq<bool>, k: nat)
    ensures
        count_unset(flags, k) <= k,
    decreases k,
{
    if k > 0 {
        lemma_count_unset_bound(flags, (k - 1) as nat);
    }
}

proof fn lemma_unplaced_len(ts: Seq<DicedTexture>, flags: Seq<bool>, k: nat)
    ensures
        unplaced(ts, flags, k).len() == count_unset(flags, k),
    decreases k,
{
    if k > 0 {
        lemma_unplaced_len(ts, flags, (k - 1) as nat);
    }
}

proof fn lemma_unplaced_from(ts: Seq<DicedTexture>, flags: Seq<bool>, k: nat)
    requires
        k <= ts.len(),
    ensures
        forall|i: int|
            0 <= i < unplaced(ts, flags, k).len() ==> ts.contains(
                #[trigger] unplaced(ts, flags, k)[i],
            ),
    decreases k,
{
    if k > 0 {
        lemma_unplaced_from(ts, flags, (k - 1) as nat);
        let prev = unplaced(ts, flags, (k - 1) as nat);
        if !flags[k - 1] {
            assert forall|i: int| 0 <= i < prev.len() + 1 implies ts.contains(
                #[trigger] prev.push(ts[k - 1])[i],
            ) by {
                if i < prev.len() {
                    assert(prev.push(ts[k - 1])[i] == prev[i]);
                } else {
                    assert(ts[k - 1] == prev.push(ts[k - 1])[i]);
                }
            }
        }
    }
}

/// The hashes a round placed are those of the admitted textures.
proof fn lemma_pool_is_placed(ctx: &Context)
    requires
        ctx.wf(),
    ensures
        ctx.units@.dom() == placed_hashes(ctx.admitted_textures()),
{
    let ts = ctx.admitted_textures();
    assert forall|h: u64| ctx.units@.dom().contains(h) <==> placed_hashes(ts).contains(h) by {
        if ctx.units@.contains_key(h) {
            let a = ctx.units@[h].tex_idx as int;
            let j = ctx.units@[h].unit_idx as int;
            assert(is_first_unit(ts, h, a, j));
            assert(holds_hash(ts[a].units@, h));
        }
        if placed_hashes(ts).contains(h) {
            let a = choose|a: int| 0 <= a < ts.len() && holds_hash(ts[a].units@, h);
            let j = choose|j: int| 0 <= j < ts[a].units@.len() && ts[a].units@[j].hash == h;
            assert(ctx.units@.contains_key(ts[a].units@[j].hash));
        }
    }
    assert(ctx.units@.dom() =~= placed_hashes(ts));
}

proof fn lemma_count_unset_all(flags: Seq<bool>, k: nat)
    requires
        k <= flags.len(),
        forall|i: int| 0 <= i < k ==> !flags[i],
    ensures
        count_unset(flags, k) == k,
    decreases k,
{
    if k > 0 {
        lemma_count_unset_all(flags, (k - 1) as nat);
    }
}

/// What the greedy search returned is the greedy choice.
proof fn lemma_next_is_pick(ctx: &Context, next: Option<usize>)
    requires
        ctx.wf(),
        next matches Some(i) ==> {
            &&& i < ctx.to_pack@.len()
            &&& !ctx.packed@[i as int]
            &&& ctx.order@.len() + ctx.new_units_of(i as int) <= ctx.unit_capacity
            &&& forall|j: int|
                0 <= j < ctx.to_pack@.len() && !ctx.packed@[j] ==> ctx.new_units_of(i as int)
                    <= #[trigger] ctx.new_units_of(j)
            &&& forall|j: int|
                0 <= j < i && !ctx.packed@[j] ==> ctx.new_units_of(i as int)
                    < #[trigger] ctx.new_units_of(j)
        },
        next is None ==> forall|j: int|
            0 <= j < ctx.to_pack@.len() && !ctx.packed@[j] ==> ctx.order@.len()
                + #[trigger] ctx.new_units_of(j) > ctx.unit_capacity,
    ensures
        next == pick(
            ctx.to_pack@,
            ctx.packed@,
            ctx.units@.dom(),
            ctx.order@.len() as int,
            ctx.unit_capacity as int,
        ),
{
    let ts = ctx.to_pack@;
    let pool = ctx.units@.dom();
    let count = ctx.order@.len() as int;
    let cap = ctx.unit_capacity as int;
    match next {
        Some(i) => {
            assert forall|j: int| 0 <= j < ts.len() && !ctx.packed@[j] implies new_units(
                ts[i as int].unique@,
                pool,
            ) <= new_units((#[trigger] ts[j]).unique@, pool) by {
                assert(ctx.new_units_of(j) == new_units(ts[j].unique@, pool));
            }
            assert forall|j: int| 0 <= j < i && !ctx.packed@[j] implies new_units(
                ts[i as int].unique@,
                pool,
            ) < new_units((#[trigger] ts[j]).unique@, pool) by {
                assert(ctx.new_units_of(j) == new_units(ts[j].unique@, pool));
            }
            lemma_pick_is(ts, ctx.packed@, pool, count, cap, i);
        },
        None => {
            assert forall|i: usize| !is_pick(ts, ctx.packed@, pool, count, cap, i) by {
                if i < ts.len() && !ctx.packed@[i as int] {
                    assert(ctx.new_units_of(i as int) == new_units(ts[i as int].unique@, pool));
                }
            }
        },
    }
}

/// The greedy choice is unique.
proof fn lemma_pick_is(ts: Seq<DicedTexture>, flags: Seq<bool>, pool: Set<u64>, count: int, cap: int, i: usize)
    requires
        is_pick(ts, flags, pool, count, cap, i),
    ensures
        pick(ts, flags, pool, count, cap) == Some(i),
{
    let j = choose|j: usize| is_pick(ts, flags, pool, count, cap, j);
    assert(is_pick(ts, flags, pool, count, cap, j));
    if j < i {
        assert(new_units(ts[i as int].unique@, pool) < new_units(ts[j as int].unique@, pool));
    } else if i < j {
        assert(new_units(ts[j as int].unique@, pool) < new_units(ts[i as int].unique@, pool));
    }
}

/// Fills one atlas: admits textures greedily while their new units fit, then lays the
/// atlas out and takes the admitted textures out of the context.
pub fn pack_it(ctx: &mut Context) -> (r: Result<Atlas, Error>)
    requires
        old(ctx).wf(),
        old(ctx).admitted@.len() == 0,
        old(ctx).order@.len() == 0,
        old(ctx).units@.dom() == Set::<u64>::empty(),
        forall|i: int| 0 <= i < old(ctx).packed@.len() ==> !#[trigger] old(ctx).packed@[i],
    ensures
        final(ctx).wf(),
        final(ctx).square == old(ctx).square,
        final(ctx).pot == old(ctx).pot,
        final(ctx).size_limit == old(ctx).size_limit,
        final(ctx).unit_size == old(ctx).unit_size,
        final(ctx).pad == old(ctx).pad,
        final(ctx).padded_unit_size == old(ctx).padded_unit_size,
        final(ctx).unit_capacity == old(ctx).unit_capacity,
        final(ctx).admitted@.len() == 0,
        final(ctx).order@.len() == 0,
        final(ctx).units@.dom() == Set::<u64>::empty(),
        forall|i: int| 0 <= i < final(ctx).packed@.len() ==> !#[trigger] final(ctx).packed@[i],
        forall|i: int|
            0 <= i < final(ctx).to_pack@.len() ==> old(ctx).to_pack@.contains(
                #[trigger] final(ctx).to_pack@[i],
            ),
        r is Err <==> forall|i: int|
            0 <= i < old(ctx).to_pack@.len() ==> (#[trigger] old(ctx).to_pack@[i]).unique@.len()
                > old(ctx).unit_capacity,
        r is Err <==> greedy_round(old(ctx).to_pack@, old(ctx).unit_capacity as int).len() == 0,
        r matches Err(e) ==> e == Error::Spec(SpecError::CantFitTexture) && final(ctx).to_pack@
            == old(ctx).to_pack@,
        r matches Ok(atlas) ==> {
            let adm = greedy_round(old(ctx).to_pack@, old(ctx).unit_capacity as int);
            &&& atlas.packed@ == adm.map_values(|i: usize| old(ctx).to_pack@[i as int])
            &&& final(ctx).to_pack@ == unplaced(
                old(ctx).to_pack@,
                admitted_flags(adm, old(ctx).to_pack@.len()),
                old(ctx).to_pack@.len(),
            )
            &&& is_atlas_of(
                atlas,
                old(ctx).unit_size as int,
                old(ctx).pad as int,
                old(ctx).size_limit as int,
                old(ctx).square,
                old(ctx).pot,
            )
            &&& atlas.packed@.len() > 0
            &&& final(ctx).to_pack@.len() < old(ctx).to_pack@.len()
        },
{
    let ghost n = ctx.to_pack@.len();
    let mut next = find_packable_texture(ctx);
    proof {
        assert forall|i: int| 0 <= i < n implies #[trigger] ctx.new_units_of(i)
            == ctx.to_pack@[i].unique@.len() by {
            let t = ctx.to_pack@[i];
            assert(is_packable(t, ctx.unit_size as int, ctx.pad as int));
            lemma_ascending_no_duplicates(t.unique@);
            t.unique@.unique_seq_to_set();
            assert(t.unique@.to_set().difference(ctx.units@.dom()) =~= t.unique@.to_set());
        }
        if next is None {
            assert forall|i: int| 0 <= i < n implies (#[trigger] ctx.to_pack@[i]).unique@.len()
                > ctx.unit_capacity by {
                assert(!ctx.packed@[i]);
                assert(ctx.new_units_of(i) == ctx.to_pack@[i].unique@.len());
            }
        } else {
            let i = next->Some_0 as int;
            assert(ctx.new_units_of(i) == ctx.to_pack@[i].unique@.len());
        }
    }
    let ghost first = next;
    let ghost cap = ctx.unit_capacity as int;
    let ghost orig = ctx.to_pack@;
    proof {
        assert(ctx.packed@ =~= Seq::new(orig.len(), |i: int| false));
        assert(ctx.admitted@ =~= Seq::<usize>::empty());
        lemma_count_unset_all(ctx.packed@, n);
        lemma_next_is_pick(ctx, next);
    }
    while next.is_some()
        invariant
            cap == ctx.unit_capacity,
            orig == ctx.to_pack@,
            greedy_round(orig, cap) == round_from(
                orig,
                ctx.packed@,
                ctx.units@.dom(),
                ctx.order@.len() as int,
                cap,
                ctx.admitted@,
                (n - ctx.admitted@.len()) as nat,
            ),
            ctx.admitted@.len() + count_unset(ctx.packed@, n) == n,
            next == pick(orig, ctx.packed@, ctx.units@.dom(), ctx.order@.len() as int, cap),
            ctx.wf(),
            ctx.to_pack@ == old(ctx).to_pack@,
            ctx.square == old(ctx).square,
            ctx.pot == old(ctx).pot,
            ctx.size_limit == old(ctx).size_limit,
            ctx.unit_size == old(ctx).unit_size,
            ctx.pad == old(ctx).pad,
            ctx.padded_unit_size == old(ctx).padded_unit_size,
            ctx.unit_capacity == old(ctx).unit_capacity,
            n == ctx.to_pack@.len(),
            first is Some ==> ctx.admitted@.len() > 0 || next is Some,
            first is None ==> next is None && ctx.admitted@.len() == 0,
            next matches Some(i) ==> {
                &&& i < n
                &&& !ctx.packed@[i as int]
                &&& ctx.order@.len() + ctx.new_units_of(i as int) <= ctx.unit_capacity
            },
        decreases count_unset(ctx.packed@, n),
    {
        let i = next.unwrap();
        proof {
            lemma_count_unset(ctx.packed@, n, i as int);
        }
        place_texture(ctx, i);
        next = find_packable_texture(ctx);
        proof {
            lemma_next_is_pick(ctx, next);
        }
    }
    proof {
        assert(ctx.admitted@ == greedy_round(orig, cap));
        assert(ctx.packed@ =~= admitted_flags(ctx.admitted@, n));
    }
    if ctx.admitted.len() == 0 {
        proof {
            assert forall|h: u64| !ctx.units@.dom().contains(h) by {
                if ctx.units@.contains_key(h) {
                    assert(is_first_unit(
                        ctx.admitted_textures(),
                        h,
                        ctx.units@[h].tex_idx as int,
                        ctx.units@[h].unit_idx as int,
                    ));
                }
            }
            assert(ctx.units@.dom() =~= Set::<u64>::empty());
            if ctx.order@.len() > 0 {
                assert(ctx.order@.contains(ctx.order@[0]));
                assert(!ctx.units@.contains_key(ctx.order@[0]));
            }
            assert forall|i: int| 0 <= i < ctx.packed@.len() implies !#[trigger] ctx.packed@[i] by {
                assert(!ctx.admitted@.contains(i as usize));
            }
        }
        return Err(Error::Spec(SpecError::CantFitTexture));
    }
    let atlas_size = eval_atlas_size(ctx);
    let (texture, rects) = bake_atlas(ctx, &atlas_size);
    proof {
        lemma_pool_is_placed(ctx);
    }
    let ghost old_dom = ctx.units@.dom();
    let ghost ts = ctx.admitted_textures();
    let ghost flags = ctx.packed@;
    let ghost cap_upr = ctx.units_per_row_max();
    proof {
        assert(ctx.admitted@.contains(ctx.admitted@[0]));
        assert(flags[ctx.admitted@[0] as int]);
        lemma_unplaced_len(ctx.to_pack@, flags, n);
        lemma_count_unset_bound(flags.update(ctx.admitted@[0] as int, false), n);
        assert(flags.update(ctx.admitted@[0] as int, false).update(ctx.admitted@[0] as int, true) =~= flags);
        lemma_count_unset(flags.update(ctx.admitted@[0] as int, false), n, ctx.admitted@[0] as int);
        lemma_unplaced_from(ctx.to_pack@, flags, n);
    }
    let packed = extract_packed_textures(ctx);
    let atlas = Atlas { texture, rects, packed };
    proof {
        assert(atlas.packed@ == ts);
        let keys = sorted_keys(placed_hashes(ts));
        assert(keys == sorted_keys(old_dom));
        assert forall|x: u64| keys.contains(x) <==> placed_hashes(ts).contains(x) by {
            assert(old_dom.contains(x) <==> placed_hashes(ts).contains(x));
        }
    }
    Ok(atlas)
}

/// Packs diced textures into atlases.
pub fn pack(diced: Vec<DicedTexture>, prefs: &Prefs) -> (r: Result<Vec<Atlas>, Error>)
    requires
        prefs.unit_size > 0,
        prefs.padding <= prefs.unit_size,
        4 * prefs.atlas_size_limit * prefs.atlas_size_limit <= usize::MAX,
        forall|i: int|
            0 <= i < diced@.len() ==> is_packable(
                #[trigger] diced@[i],
                prefs.unit_size as int,
                prefs.padding as int,
            ),
    ensures
        prefs.atlas_size_limit == 0 ==> r == Err::<Vec<Atlas>, Error>(
            Error::Spec(SpecError::AtlasLimitZero),
        ),
        prefs.atlas_size_limit > 0 && prefs.unit_size > prefs.atlas_size_limit ==> r == Err::<
            Vec<Atlas>,
            Error,
        >(Error::Spec(SpecError::UnitSizeAboveLimit)),
        prefs.atlas_size_limit > 0 && prefs.unit_size <= prefs.atlas_size_limit ==> (r is Ok
            || r == Err::<Vec<Atlas>, Error>(Error::Spec(SpecError::CantFitTexture))),
        r == Err::<Vec<Atlas>, Error>(Error::Spec(SpecError::CantFitTexture)) ==> exists|i: int|
            0 <= i < diced@.len() && (#[trigger] diced@[i]).unique@.len() > capacity(*prefs),
        diced@.len() == 0 && prefs.atlas_size_limit > 0 && prefs.unit_size
            <= prefs.atlas_size_limit ==> (r matches Ok(v) && v@.len() == 0),
        prefs.atlas_size_limit > 0 && prefs.unit_size <= prefs.atlas_size_limit ==> (r is Ok
            <==> !greedy_fails(diced@, capacity(*prefs), diced@.len())),
        r matches Ok(atlases) ==> is_packing_of(atlases@, diced@, *prefs),
{
    if prefs.atlas_size_limit == 0 {
        return Err(Error::Spec(SpecError::AtlasLimitZero));
    }
    if prefs.unit_size > prefs.atlas_size_limit {
        return Err(Error::Spec(SpecError::UnitSizeAboveLimit));
    }
    let ghost input = diced@;
    let mut atlases: Vec<Atlas> = Vec::new();
    let mut ctx = new_ctx(diced, prefs);
    assert(Seq::new(0, |a: int| atlases@[a].packed@) + greedy_atlases(
        input,
        capacity(*prefs),
        input.len(),
    ) =~= greedy_atlases(input, capacity(*prefs), input.len()));
    while ctx.to_pack.len() > 0
        invariant
            ctx.wf(),
            ctx.admitted@.len() == 0,
            ctx.order@.len() == 0,
            ctx.units@.dom() == Set::<u64>::empty(),
            forall|i: int| 0 <= i < ctx.packed@.len() ==> !#[trigger] ctx.packed@[i],
            ctx.square == prefs.atlas_square,
            ctx.pot == prefs.atlas_pot,
            ctx.size_limit == prefs.atlas_size_limit,
            ctx.unit_size == prefs.unit_size,
            ctx.pad == prefs.padding,
            ctx.unit_capacity == capacity(*prefs),
            input == diced@,
            input.len() == 0 ==> atlases@.len() == 0,
            ctx.to_pack@.len() + atlases@.len() <= input.len(),
            greedy_atlases(input, capacity(*prefs), input.len()) == Seq::new(
                atlases@.len(),
                |a: int| atlases@[a].packed@,
            ) + greedy_atlases(
                ctx.to_pack@,
                capacity(*prefs),
                (input.len() - atlases@.len()) as nat,
            ),
            greedy_fails(input, capacity(*prefs), input.len()) == greedy_fails(
                ctx.to_pack@,
                capacity(*prefs),
                (input.len() - atlases@.len()) as nat,
            ),
            forall|i: int| 0 <= i < ctx.to_pack@.len() ==> input.contains(#[trigger] ctx.to_pack@[i]),
            forall|a: int|
                0 <= a < atlases@.len() ==> {
                    &&& is_atlas_of(
                        #[trigger] atlases@[a],
                        prefs.unit_size as int,
                        prefs.padding as int,
                        prefs.atlas_size_limit as int,
                        prefs.atlas_square,
                        prefs.atlas_pot,
                    )
                    &&& atlases@[a].packed@.len() > 0
                },
        decreases ctx.to_pack@.len(),
    {
        let ghost before = ctx.to_pack@;
        let ghost done = Seq::new(atlases@.len(), |a: int| atlases@[a].packed@);
        let ghost fuel = (input.len() - atlases@.len()) as nat;
        assert(input.contains(before[0]));
        match pack_it(&mut ctx) {
            Ok(atlas) => {
                atlases.push(atlas);
                proof {
                    let cap = capacity(*prefs);
                    let adm = greedy_round(before, cap);
                    assert(greedy_atlases(before, cap, fuel) == seq![adm.map_values(|i: usize| before[i as int])]
                        + greedy_atlases(ctx.to_pack@, cap, (fuel - 1) as nat));
                    assert(greedy_fails(before, cap, fuel) == greedy_fails(ctx.to_pack@, cap, (fuel - 1) as nat));
                    assert(Seq::new(atlases@.len(), |a: int| atlases@[a].packed@) =~= done.push(
                        adm.map_values(|i: usize| before[i as int]),
                    ));
                    assert(greedy_atlases(input, cap, input.len()) =~= Seq::new(
                        atlases@.len(),
                        |a: int| atlases@[a].packed@,
                    ) + greedy_atlases(ctx.to_pack@, cap, (input.len() - atlases@.len()) as nat));
                    assert forall|i: int| 0 <= i < ctx.to_pack@.len() implies input.contains(
                        #[trigger] ctx.to_pack@[i],
                    ) by {
                        assert(before.contains(ctx.to_pack@[i]));
                        let j = choose|j: int| 0 <= j < before.len() && before[j] == ctx.to_pack@[i];
                        assert(input.contains(before[j]));
                    }
                }
            },
            Err(e) => {
                proof {
                    assert(greedy_fails(before, capacity(*prefs), fuel));
                    assert(before.len() > 0);
                    assert(e == Error::Spec(SpecError::CantFitTexture));
                    assert(before[0].unique@.len() > ctx.unit_capacity);
                    assert(input.contains(before[0]));
                    let j = choose|j: int| 0 <= j < input.len() && input[j] == before[0];
                    assert(input[j].unique@.len() > capacity(*prefs));
                }
                return Err(e);
            },
        }
    }
    proof {
        assert(Seq::new(atlases@.len(), |a: int| atlases@[a].packed@) + greedy_atlases(
            ctx.to_pack@,
            capacity(*prefs),
            (input.len() - atlases@.len()) as nat,
        ) =~= Seq::new(atlases@.len(), |a: int| atlases@[a].packed@));
    }
    Ok(atlases)
}

/// Packing context over the diced textures, with a fresh round open.
pub fn new_ctx(diced: Vec<DicedTexture>, prefs: &Prefs) -> (ctx: Context)
    requires
        0 < prefs.unit_size <= prefs.atlas_size_limit,
        prefs.padding <= prefs.unit_size,
        4 * prefs.atlas_size_limit * prefs.atlas_size_limit <= usize::MAX,
        forall|i: int|
            0 <= i < diced@.len() ==> is_packable(
                #[trigger] diced@[i],
                prefs.unit_size as int,
                prefs.padding as int,
            ),
    ensures
        ctx.wf(),
        ctx.to_pack@ == diced@,
        ctx.admitted@.len() == 0,
        ctx.order@.len() == 0,
        ctx.units@.dom() == Set::<u64>::empty(),
        forall|i: int| 0 <= i < ctx.packed@.len() ==> !#[trigger] ctx.packed@[i],
        ctx.square == prefs.atlas_square,
        ctx.pot == prefs.atlas_pot,
        ctx.size_limit == prefs.atlas_size_limit,
        ctx.unit_size == prefs.unit_size,
        ctx.pad == prefs.padding,
        ctx.unit_capacity == capacity(*prefs),
{
    let padded_unit_size = prefs.unit_size as u64 + prefs.padding as u64 * 2;
    let units_per_row = prefs.atlas_size_limit as u64 / padded_unit_size;
    proof {
        lemma_fits_row(0, padded_unit_size as int, prefs.atlas_size_limit as int);
        assert(units_per_row * units_per_row < 0x1_0000_0000_0000_0000) by (nonlinear_arith)
            requires
                0 <= units_per_row <= prefs.atlas_size_limit,
                prefs.atlas_size_limit <= u32::MAX,
        ;
    }
    let unit_capacity = units_per_row * units_per_row;
    let mut packed: Vec<bool> = Vec::new();
    let mut k: usize = 0;
    while k < diced.len()
        invariant
            k <= diced@.len(),
            packed@.len() == k,
            forall|q: int| 0 <= q < k ==> !#[trigger] packed@[q],
        decreases diced@.len() - k,
    {
        packed.push(false);
        k += 1;
    }
    let ctx = Context {
        square: prefs.atlas_square,
        pot: prefs.atlas_pot,
        size_limit: prefs.atlas_size_limit,
        unit_size: prefs.unit_size,
        pad: prefs.padding,
        padded_unit_size,
        unit_capacity,
        to_pack: diced,
        packed,
        admitted: Vec::new(),
        units: HashMap::new(),
        order: Vec::new(),
    };
    proof {
        assert(ctx.admitted_textures() =~= Seq::<DicedTexture>::empty());
        assert(ctx.units@.dom() =~= Set::<u64>::empty());
    }
    ctx
}

/// A strictly ascending sequence has no duplicates.
proof fn lemma_ascending_no_duplicates(s: Seq<u64>)
    requires
        strictly_ascending(s),
    ensures
        s.no_duplicates(),
{
    assert forall|i: int, j: int| 0 <= i < s.len() && 0 <= j < s.len() && i != j implies s[i]
        != s[j] by {
        if i < j {
            assert(s[i] < s[j]);
        } else {
            assert(s[j] < s[i]);
        }
    }
}

/// An atlas is a function of the textures placed on it and the settings: two atlases of
/// the same textures have identical dimensions, pixels and unit rectangles.
pub proof fn atlas_is_determined(
    a1: Atlas,
    a2: Atlas,
    unit_size: int,
    pad: int,
    limit: int,
    square: bool,
    pot: bool,
)
    requires
        is_atlas_of(a1, unit_size, pad, limit, square, pot),
        is_atlas_of(a2, unit_size, pad, limit, square, pot),
        a1.packed@ == a2.packed@,
    ensures
        a1.texture.width == a2.texture.width,
        a1.texture.height == a2.texture.height,
        a1.texture.pixels@ == a2.texture.pixels@,
        a1.rects@ == a2.rects@,
{
    let keys = sorted_keys(placed_hashes(a1.packed@));
    assert forall|x: u64| a1.rects@.contains_key(x) implies a1.rects@[x] == a2.rects@[x] by {
        assert(keys.contains(x));
        let b = choose|b: int| 0 <= b < keys.len() && keys[b] == x;
        assert(a1.rects@[keys[b]] == a2.rects@[keys[b]]);
    }
    assert forall|x: u64| a1.rects@.contains_key(x) <==> a2.rects@.contains_key(x) by {
        assert(a1.rects@.contains_key(x) <==> placed_hashes(a1.packed@).contains(x));
        assert(a2.rects@.contains_key(x) <==> placed_hashes(a2.packed@).contains(x));
    }
    assert(a1.rects@ =~= a2.rects@);
}

/// Units sit on the atlas in ascending order of their hashes: slots fill rows left to
/// right, top to bottom, so a smaller hash lies on an earlier row, or further left on the
/// same row.
pub proof fn layout_follows_hash_order(a: Atlas, unit_size: int, pad: int, limit: int, square: bool, pot: bool, h1: u64, h2: u64)
    requires
        is_atlas_of(a, unit_size, pad, limit, square, pot),
        unit_size > 0,
        pad >= 0,
        a.rects@.contains_key(h1),
        a.rects@.contains_key(h2),
        h1 < h2,
    ensures
        a.rects@[h1].y < a.rects@[h2].y || (a.rects@[h1].y == a.rects@[h2].y && a.rects@[h1].x
            < a.rects@[h2].x),
{
    let ts = a.packed@;
    let keys = sorted_keys(placed_hashes(ts));
    let pus = unit_size + 2 * pad;
    let w = a.texture.width as int;
    let upr = w / pus;
    assert(keys.contains(h1) && keys.contains(h2));
    let b1 = choose|b: int| 0 <= b < keys.len() && keys[b] == h1;
    let b2 = choose|b: int| 0 <= b < keys.len() && keys[b] == h2;
    assert(b1 < b2) by {
        if b2 < b1 {
            assert(keys[b2] < keys[b1]);
        }
    }
    assert(a.rects@[keys[b1]] == slot_rect(ts, keys, w, pus, pad, b1));
    assert(a.rects@[keys[b2]] == slot_rect(ts, keys, w, pus, pad, b2));
    let rows = a.texture.height as int / pus;
    lemma_fits_row(0, pus, w);
    lemma_fits_row(0, pus, a.texture.height as int);
    assert(upr >= 1 && rows >= 1) by (nonlinear_arith)
        requires
            0 <= b2 < keys.len(),
            keys.len() <= upr * rows,
            upr >= 0,
            rows >= 0,
    ;
    lemma_slot_order(b1, b2, upr, rows, pus, pad, w, a.texture.height as int);
}

proof fn lemma_slot_order(b1: int, b2: int, upr: int, rows: int, pus: int, pad: int, w: int, h: int)
    requires
        0 <= b1 < b2 < upr * rows,
        upr >= 1,
        rows >= 1,
        pus > pad >= 0,
        upr * pus <= w <= u32::MAX,
        rows * pus <= h <= u32::MAX,
    ensures
        (((b1 / upr) * pus + pad) as u32) < (((b2 / upr) * pus + pad) as u32) || (((b1 / upr)
            * pus + pad) as u32 == ((b2 / upr) * pus + pad) as u32 && (((b1 % upr) * pus
            + pad) as u32) < (((b2 % upr) * pus + pad) as u32)),
{
    lemma_fundamental_div_mod(b1, upr);
    lemma_fundamental_div_mod(b2, upr);
    lemma_mod_pos_bound(b1, upr);
    lemma_mod_pos_bound(b2, upr);
    let q1 = b1 / upr;
    let q2 = b2 / upr;
    let r1 = b1 % upr;
    let r2 = b2 % upr;
    assert(0 <= q1 <= q2 < rows && (q1 == q2 ==> r1 < r2)) by (nonlinear_arith)
        requires
            b1 == upr * q1 + r1,
            b2 == upr * q2 + r2,
            0 <= r1 < upr,
            0 <= r2 < upr,
            0 <= b1 < b2 < upr * rows,
    ;
    assert(q1 * pus + pad < h && q2 * pus + pad < h && r1 * pus + pad < w && r2 * pus + pad < w
        && (q1 < q2 ==> q1 * pus < q2 * pus) && (r1 < r2 ==> r1 * pus < r2 * pus)) by (
    nonlinear_arith)
        requires
            0 <= q1 <= q2 < rows,
            0 <= r1 < upr,
            0 <= r2 < upr,
            pus > pad >= 0,
            upr * pus <= w,
            rows * pus <= h,
    ;
}

/// Packing is reproducible: two packings of the same textures under the same preferences
/// yield the same atlases, pixel for pixel, with the same unit rectangles.
pub proof fn packing_reproduces(a1: Seq<Atlas>, a2: Seq<Atlas>, ts: Seq<DicedTexture>, prefs: Prefs)
    requires
        is_packing_of(a1, ts, prefs),
        is_packing_of(a2, ts, prefs),
    ensures
        a1.len() == a2.len(),
        forall|a: int|
            0 <= a < a1.len() ==> {
                &&& (#[trigger] a1[a]).packed@ == a2[a].packed@
                &&& a1[a].texture.width == a2[a].texture.width
                &&& a1[a].texture.height == a2[a].texture.height
                &&& a1[a].texture.pixels@ == a2[a].texture.pixels@
                &&& a1[a].rects@ == a2[a].rects@
            },
{
    assert forall|a: int| 0 <= a < a1.len() implies {
        &&& (#[trigger] a1[a]).packed@ == a2[a].packed@
        &&& a1[a].texture.width == a2[a].texture.width
        &&& a1[a].texture.height == a2[a].texture.height
        &&& a1[a].texture.pixels@ == a2[a].texture.pixels@
        &&& a1[a].rects@ == a2[a].rects@
    } by {
        assert(a1[a].packed@ == a2[a].packed@);
        atlas_is_determined(
            a1[a],
            a2[a],
            prefs.unit_size as int,
            prefs.padding as int,
            prefs.atlas_size_limit as int,
            prefs.atlas_square,
            prefs.atlas_pot,
        );
    }
}

proof fn lemma_round_from_distinct(
    ts: Seq<DicedTexture>,
    flags: Seq<bool>,
    pool: Set<u64>,
    count: int,
    cap: int,
    admitted: Seq<usize>,
    fuel: nat,
)
    requires
        flags.len() == ts.len(),
        ts.len() <= usize::MAX,
        admitted.no_duplicates(),
        forall|a: int| 0 <= a < admitted.len() ==> #[trigger] admitted[a] < ts.len(),
        forall|i: int| 0 <= i < ts.len() ==> (#[trigger] flags[i] <==> admitted.contains(i as usize)),
    ensures
        round_from(ts, flags, pool, count, cap, admitted, fuel).no_duplicates(),
        forall|a: int|
            0 <= a < round_from(ts, flags, pool, count, cap, admitted, fuel).len()
                ==> #[trigger] round_from(ts, flags, pool, count, cap, admitted, fuel)[a]
                < ts.len(),
    decreases fuel,
{
    if fuel > 0 {
        if let Some(i) = pick(ts, flags, pool, count, cap) {
            assert(exists|j: usize| is_pick(ts, flags, pool, count, cap, j));
            assert(is_pick(ts, flags, pool, count, cap, i));
            assert(!admitted.contains(i));
            let adm2 = admitted.push(i);
            let flags2 = flags.update(i as int, true);
            assert forall|k: int| 0 <= k < ts.len() implies (#[trigger] flags2[k]
                <==> adm2.contains(k as usize)) by {
                if adm2.contains(k as usize) && k != i {
                    let q = choose|q: int| 0 <= q < adm2.len() && adm2[q] == k as usize;
                    assert(admitted[q] == k as usize);
                }
                if admitted.contains(k as usize) {
                    let q = choose|q: int| 0 <= q < admitted.len() && admitted[q] == k as usize;
                    assert(adm2[q] == k as usize);
                }
                if k == i {
                    assert(adm2[admitted.len() as int] == i);
                }
            }
            lemma_round_from_distinct(
                ts,
                flags2,
                pool.union(ts[i as int].unique@.to_set()),
                count + new_units(ts[i as int].unique@, pool),
                cap,
                adm2,
                (fuel - 1) as nat,
            );
        }
    }
}

proof fn lemma_unplaced_agree(t1: Seq<DicedTexture>, f1: Seq<bool>, t2: Seq<DicedTexture>, f2: Seq<bool>, k: nat)
    requires
        k <= t1.len(),
        k <= t2.len(),
        k <= f1.len(),
        k <= f2.len(),
        forall|i: int| 0 <= i < k ==> t1[i] == t2[i] && f1[i] == f2[i],
    ensures
        unplaced(t1, f1, k) == unplaced(t2, f2, k),
    decreases k,
{
    if k > 0 {
        lemma_unplaced_agree(t1, f1, t2, f2, (k - 1) as nat);
    }
}

/// The admitted textures and the rest together are the textures, counted with repeats.
proof fn lemma_split(ts: Seq<DicedTexture>, adm: Seq<usize>)
    requires
        ts.len() <= usize::MAX,
        adm.no_duplicates(),
        forall|a: int| 0 <= a < adm.len() ==> #[trigger] adm[a] < ts.len(),
    ensures
        adm.map_values(|i: usize| ts[i as int]).to_multiset().add(
            unplaced(ts, admitted_flags(adm, ts.len()), ts.len()).to_multiset(),
        ) == ts.to_multiset(),
    decreases ts.len(),
{
    let n = ts.len();
    let flags = admitted_flags(adm, n);
    let picked = adm.map_values(|i: usize| ts[i as int]);
    if n == 0 {
        if adm.len() > 0 {
            assert(adm[0] < ts.len());
        }
        assert(picked =~= Seq::<DicedTexture>::empty());
        assert(unplaced(ts, flags, n) =~= Seq::<DicedTexture>::empty());
        assert(ts.to_multiset() =~= Multiset::empty());
    } else {
        let last = (n - 1) as usize;
        let ts2 = ts.drop_last();
        assert(ts =~= ts2.push(ts[n - 1]));
        if adm.contains(last) {
            let q = choose|q: int| 0 <= q < adm.len() && adm[q] == last;
            let adm2 = adm.remove(q);
            assert forall|a: int| 0 <= a < adm2.len() implies #[trigger] adm2[a] < ts2.len() by {
                if a < q {
                    assert(adm2[a] == adm[a]);
                    assert(adm[a] != adm[q]);
                } else {
                    assert(adm2[a] == adm[a + 1]);
                    assert(adm[a + 1] != adm[q]);
                }
            }
            assert(adm2.no_duplicates()) by {
                assert forall|x: int, y: int| 0 <= x < adm2.len() && 0 <= y < adm2.len() && x != y
                    implies adm2[x] != adm2[y] by {
                    let ox = if x < q { x } else { x + 1 };
                    let oy = if y < q { y } else { y + 1 };
                    assert(adm2[x] == adm[ox] && adm2[y] == adm[oy]);
                }
            }
            lemma_split(ts2, adm2);
            let flags2 = admitted_flags(adm2, ts2.len());
            let picked2 = adm2.map_values(|i: usize| ts2[i as int]);
            assert(picked.remove(q) =~= picked2);
            vstd::seq_lib::to_multiset_remove(picked, q);
            assert(picked[q] == ts[n - 1]);
            vstd::seq_lib::to_multiset_contains(picked, ts[n - 1]);
            assert(picked.contains(ts[n - 1]));
            assert(picked.to_multiset() =~= picked2.to_multiset().insert(ts[n - 1]));
            assert forall|i: int| 0 <= i < n - 1 implies ts[i] == ts2[i] && flags[i] == flags2[i] by {
                if adm.contains(i as usize) {
                    let r = choose|r: int| 0 <= r < adm.len() && adm[r] == i as usize;
                    assert(r != q);
                    let r2 = if r < q { r } else { r - 1 };
                    assert(adm2[r2] == i as usize);
                }
                if adm2.contains(i as usize) {
                    let r = choose|r: int| 0 <= r < adm2.len() && adm2[r] == i as usize;
                    let r0 = if r < q { r } else { r + 1 };
                    assert(adm[r0] == i as usize);
                }
            }
            lemma_unplaced_agree(ts, flags, ts2, flags2, (n - 1) as nat);
            assert(flags[n - 1]);
            assert(unplaced(ts, flags, n) == unplaced(ts, flags, (n - 1) as nat));
            assert(ts.to_multiset() =~= ts2.to_multiset().insert(ts[n - 1]));
        } else {
            assert forall|a: int| 0 <= a < adm.len() implies #[trigger] adm[a] < ts2.len() by {
                assert(adm[a] != last);
            }
            lemma_split(ts2, adm);
            let flags2 = admitted_flags(adm, ts2.len());
            let picked2 = adm.map_values(|i: usize| ts2[i as int]);
            assert(picked =~= picked2);
            assert forall|i: int| 0 <= i < n - 1 implies ts[i] == ts2[i] && flags[i] == flags2[i] by {
            }
            lemma_unplaced_agree(ts, flags, ts2, flags2, (n - 1) as nat);
            assert(!flags[n - 1]);
            assert(unplaced(ts, flags, n) == unplaced(ts, flags, (n - 1) as nat).push(ts[n - 1]));
            assert(ts.to_multiset() =~= ts2.to_multiset().insert(ts[n - 1]));
        }
    }
}

/// Packing places every texture exactly once: when no round stalls, the textures of all
/// the atlases are the input textures, counted with repeats.
pub proof fn every_texture_is_packed_once(ts: Seq<DicedTexture>, cap: int, fuel: nat)
    requires
        !greedy_fails(ts, cap, fuel),
        ts.len() <= fuel,
        ts.len() <= usize::MAX,
    ensures
        greedy_atlases(ts, cap, fuel).flatten().to_multiset() == ts.to_multiset(),
    decreases fuel,
{
    if fuel == 0 || ts.len() == 0 {
        assert(ts =~= Seq::<DicedTexture>::empty());
        assert(greedy_atlases(ts, cap, fuel) =~= Seq::<Seq<DicedTexture>>::empty());
        assert(ts.to_multiset() =~= Multiset::empty());
    } else {
        let n = ts.len();
        let adm = greedy_round(ts, cap);
        let flags0 = Seq::new(n, |i: int| false);
        assert forall|i: int| 0 <= i < n implies (#[trigger] flags0[i]
            <==> Seq::<usize>::empty().contains(i as usize)) by {
        }
        lemma_round_from_distinct(ts, flags0, Set::empty(), 0, cap, Seq::empty(), n);
        let flags = admitted_flags(adm, n);
        let rest = unplaced(ts, flags, n);
        let picked = adm.map_values(|i: usize| ts[i as int]);
        lemma_split(ts, adm);
        assert(adm.len() > 0);
        assert(flags[adm[0] as int]);
        lemma_unplaced_len(ts, flags, n);
        lemma_count_unset_bound(flags.update(adm[0] as int, false), n);
        assert(flags.update(adm[0] as int, false).update(adm[0] as int, true) =~= flags);
        lemma_count_unset(flags.update(adm[0] as int, false), n, adm[0] as int);
        every_texture_is_packed_once(rest, cap, (fuel - 1) as nat);
        let later = greedy_atlases(rest, cap, (fuel - 1) as nat);
        assert(greedy_atlases(ts, cap, fuel) == seq![picked] + later);
        vstd::seq_lib::lemma_flatten_concat(seq![picked], later);
        seq![picked].lemma_flatten_singleton();
        vstd::seq_lib::lemma_multiset_commutative(picked, later.flatten());
    }
}

/// Atlas pixel coverage: a pixel inside the slot of a placed unit repeats that unit's
/// padded block, and every pixel outside all slots is the clear default.
pub proof fn atlas_pixel_coverage(
    a: Atlas,
    unit_size: int,
    pad: int,
    limit: int,
    square: bool,
    pot: bool,
    k: int,
)
    requires
        is_atlas_of(a, unit_size, pad, limit, square, pot),
        0 <= k < a.texture.width * a.texture.height,
    ensures
        ({
            let ts = a.packed@;
            let keys = sorted_keys(placed_hashes(ts));
            let pus = unit_size + 2 * pad;
            let w = a.texture.width as int;
            let px = k % w;
            let py = k / w;
            let b = (py / pus) * (w / pus) + px / pus;
            if px / pus < w / pus && b < keys.len() {
                a.texture.pixels@[k] == source_unit(ts, keys[b]).pixels@[(py % pus) * pus + px
                    % pus]
            } else {
                a.texture.pixels@[k] == Pixel::clear()
            }
        }),
{
}

/// What dicing yields is fit for packing under the same unit size and padding.
pub proof fn diced_textures_are_packable(t: DicedTexture, sprite: SourceSprite, size: int, pad: int)
    requires
        is_diced_texture(t, sprite, size, pad),
        0 < size <= u32::MAX,
        pad >= 0,
    ensures
        is_packable(t, size, pad),
{
    let tex = sprite.texture;
    let cells = kept_cells(tex, size);
    lemma_grid_side(tex.width as int, size);
    lemma_grid_side(tex.height as int, size);
    lemma_opaque_cells_range(tex, size, cell_count(tex, size) as nat);
    assert forall|j: int| 0 <= j < t.units@.len() implies {
        &&& (#[trigger] t.units@[j]).pixels@.len() == (size + 2 * pad) * (size + 2 * pad)
        &&& t.units@[j].rect.width <= size
        &&& t.units@[j].rect.height <= size
    } by {
        let c = cells[j];
        let ux = cell_x(tex, size, c);
        let uy = cell_y(tex, size, c);
        assert(is_unit_of(t.units@[j], tex, size, pad, ux, uy));
        assert(0 <= c < cell_count(tex, size));
        assert(c < grid_rows(tex, size) * grid_cols(tex, size)) by (nonlinear_arith)
            requires
                c < grid_cols(tex, size) * grid_rows(tex, size),
        ;
        lemma_div_in_grid(c, grid_rows(tex, size), grid_cols(tex, size));
        assert(ux * size < tex.width);
        assert(uy * size < tex.height);
        assert(0 <= ux * size && 0 <= uy * size) by (nonlinear_arith)
            requires
                ux >= 0,
                uy >= 0,
                size > 0,
        ;
    }
}

/// Every texture on an atlas fits its capacity: its distinct hashes are no more than the
/// units one atlas can hold.
pub proof fn packed_textures_fit(
    a: Atlas,
    unit_size: int,
    pad: int,
    limit: int,
    square: bool,
    pot: bool,
    i: int,
)
    requires
        is_atlas_of(a, unit_size, pad, limit, square, pot),
        0 <= i < a.packed@.len(),
        is_unique_of(a.packed@[i].unique@, a.packed@[i].units@),
    ensures
        a.packed@[i].unique@.len() <= (limit / (unit_size + 2 * pad)) * (limit / (unit_size + 2
            * pad)),
{
    let ts = a.packed@;
    let keys = sorted_keys(placed_hashes(ts));
    let unique = ts[i].unique@;
    lemma_ascending_no_duplicates(unique);
    lemma_ascending_no_duplicates(keys);
    unique.unique_seq_to_set();
    keys.unique_seq_to_set();
    assert forall|h: u64| unique.to_set().contains(h) implies keys.to_set().contains(h) by {
        assert(unique.contains(h));
        assert(holds_hash(ts[i].units@, h));
        assert(placed_hashes(ts).contains(h));
        assert(keys.contains(h));
    }
    vstd::set_lib::lemma_len_subset(unique.to_set(), keys.to_set());
}

} // verus!
