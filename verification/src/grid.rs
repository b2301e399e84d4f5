use vstd::prelude::*;
use vstd::arithmetic::div_mod::lemma_fundamental_div_mod_converse;
use vstd::arithmetic::div_mod::lemma_fundamental_div_mod;
use crate::sexpr::str_eq;

verus! {

/// The routing grid: `num_layers` planes of `width × height` cells.
///
/// Each cell has a hard-obstacle flag (`perm`, never cleared), the number of
/// nets that use it in the current pass (`occupancy`), and an accumulated
/// congestion penalty (`history`). Cells are stored plane by plane, row by row.
pub struct GridMap {
    pub width: usize,
    pub height: usize,
    pub num_layers: usize,
    pub layer_names: Vec<String>,
    /// Hard obstacles: keepouts and pre-placed wires. Never cleared.
    pub perm: Vec<bool>,
    /// How many nets use each cell in the current pass.
    pub occupancy: Vec<u8>,
    /// Accumulated congestion penalty across passes.
    pub history: Vec<u32>,
}

/// Position of cell `(x, y)` on layer `l` in the flat cell arrays.
pub open spec fn cell_index(w: int, h: int, x: int, y: int, l: int) -> int {
    l * h * w + y * w + x
}

pub open spec fn sat_add_u8(a: u8, b: u8) -> u8 {
    if a + b > u8::MAX { u8::MAX } else { (a + b) as u8 }
}

pub open spec fn sat_add_u32(a: u32, b: u32) -> u32 {
    if a + b > u32::MAX { u32::MAX } else { (a + b) as u32 }
}

pub open spec fn sat_mul_u32(a: u32, b: u32) -> u32 {
    if a * b > u32::MAX { u32::MAX } else { (a * b) as u32 }
}

/// `a.saturating_mul(b)`.
pub fn sat_mul_u32_exec(a: u32, b: u32) -> (r: u32)
    ensures
        r == sat_mul_u32(a, b),
{
    assert((a as int) * (b as int) <= 0xffff_ffffint * 0xffff_ffffint) by (nonlinear_arith)
        requires
            a <= 0xffff_ffff,
            b <= 0xffff_ffff,
    ;
    let p: u64 = (a as u64) * (b as u64);
    if p > u32::MAX as u64 {
        u32::MAX
    } else {
        p as u32
    }
}

pub open spec fn abs_diff(a: int, b: int) -> int {
    if a >= b { a - b } else { b - a }
}

proof fn lemma_mul_mono(a: int, b: int, c: int)
    by (nonlinear_arith)
    requires
        0 <= a <= b,
        0 <= c,
    ensures
        a * c <= b * c,
{
}

/// Cell indices are in range and decode back to their coordinates.
pub proof fn lemma_cell_index(w: int, h: int, n: int, x: int, y: int, l: int)
    requires
        0 <= x < w,
        0 <= y < h,
        0 <= l < n,
    ensures
        0 <= cell_index(w, h, x, y, l) < n * h * w,
        cell_index(w, h, x, y, l) % w == x,
        (cell_index(w, h, x, y, l) / w) % h == y,
        cell_index(w, h, x, y, l) / w / h == l,
{
    let k = cell_index(w, h, x, y, l);
    assert(l * h * w + y * w + x == (l * h + y) * w + x) by (nonlinear_arith);
    lemma_fundamental_div_mod_converse(k, w, l * h + y, x);
    lemma_fundamental_div_mod_converse(l * h + y, h, l, y);
    assert(0 <= l * h) by (nonlinear_arith)
        requires
            0 <= l,
            0 <= h,
    ;
    assert(l * h + y < n * h) by (nonlinear_arith)
        requires
            0 <= y < h,
            0 <= l < n,
    ;
    assert(0 <= (l * h + y) * w) by (nonlinear_arith)
        requires
            0 <= l * h + y,
            0 <= w,
    ;
    assert((l * h + y) * w + x < n * h * w) by (nonlinear_arith)
        requires
            0 <= l * h + y < n * h,
            0 <= x < w,
    ;
}

/// Every index in range is the index of the cell it decodes to.
pub proof fn lemma_index_cell(w: int, h: int, n: int, k: int)
    requires
        w > 0,
        h > 0,
        0 <= k < n * h * w,
    ensures
        0 <= k % w < w,
        0 <= (k / w) % h < h,
        0 <= k / w / h < n,
        k == cell_index(w, h, k % w, (k / w) % h, k / w / h),
{
    lemma_fundamental_div_mod(k, w);
    lemma_fundamental_div_mod(k / w, h);
    let q = k / w;
    assert(0 <= q) by (nonlinear_arith)
        requires
            0 <= k,
            w > 0,
            q == k / w,
    ;
    assert(q < n * h) by (nonlinear_arith)
        requires
            0 <= k < n * h * w,
            w > 0,
            q == k / w,
    ;
    assert(q / h < n) by (nonlinear_arith)
        requires
            0 <= q < n * h,
            h > 0,
    ;
    assert(0 <= q / h) by (nonlinear_arith)
        requires
            0 <= q,
            h > 0,
    ;
    assert(k == cell_index(w, h, k % w, q % h, q / h)) by (nonlinear_arith)
        requires
            k == w * q + k % w,
            q == h * (q / h) + q % h,
    ;
}

/// Some pad among the first `upto` of `pads` sits at `(x, y)`.
pub open spec fn pad_among(pads: Seq<(usize, usize)>, upto: int, x: int, y: int) -> bool {
    exists|q: int| 0 <= q < upto && #[trigger] pads[q].0 == x && pads[q].1 == y
}

pub proof fn lemma_pad_among_step(pads: Seq<(usize, usize)>, p: int, x: int, y: int)
    requires
        0 <= p < pads.len(),
    ensures
        pad_among(pads, p + 1, x, y) == (pad_among(pads, p, x, y) || (pads[p].0 == x && pads[p].1
            == y)),
{
    if pad_among(pads, p + 1, x, y) {
        let q = choose|q: int| 0 <= q < p + 1 && #[trigger] pads[q].0 == x && pads[q].1 == y;
        if q < p {
            assert(pad_among(pads, p, x, y));
        }
    }
    if pads[p].0 == x && pads[p].1 == y {
        assert(pads[p].0 == x);
    }
}

impl GridMap {
    /// Sizes agree and the cell arrays hold one entry per cell.
    pub open spec fn wf(&self) -> bool {
        &&& self.width >= 1
        &&& self.height >= 1
        &&& self.num_layers >= 1
        &&& self.num_cells() <= usize::MAX
        &&& self.perm@.len() == self.num_cells()
        &&& self.occupancy@.len() == self.num_cells()
        &&& self.history@.len() == self.num_cells()
    }

    pub open spec fn num_cells(&self) -> int {
        self.num_layers * self.height * self.width
    }

    pub open spec fn idx(&self, x: int, y: int, l: int) -> int {
        cell_index(self.width as int, self.height as int, x, y, l)
    }

    pub open spec fn in_bounds(&self, x: int, y: int, l: int) -> bool {
        0 <= x < self.width && 0 <= y < self.height && 0 <= l < self.num_layers
    }

    pub open spec fn cell_x(&self, k: int) -> int {
        k % (self.width as int)
    }

    pub open spec fn cell_y(&self, k: int) -> int {
        (k / (self.width as int)) % (self.height as int)
    }

    pub open spec fn cell_layer(&self, k: int) -> int {
        k / (self.width as int) / (self.height as int)
    }

    /// Whether cell `k` is a hard obstacle.
    pub open spec fn is_perm(&self, k: int) -> bool {
        self.perm@[k]
    }

    pub open spec fn perm_view(&self) -> Seq<bool> {
        self.perm@
    }

    /// No cell is used by more than one net.
    pub open spec fn legal(&self) -> bool {
        forall|k: int| 0 <= k < self.occupancy@.len() ==> #[trigger] self.occupancy@[k] <= 1
    }

    /// The PathFinder traversal cost of an in-bounds, passable cell, as an integer.
    pub open spec fn raw_cost(&self, k: int, present_factor: u32) -> int {
        1 + sat_mul_u32(present_factor, self.occupancy@[k] as u32) + self.history@[k]
    }

    /// Traversal cost of `(x, y, l)`: `u32::MAX` outside the grid and on hard
    /// obstacles, otherwise `1 + present_factor × occupancy + history`.
    pub open spec fn spec_pf_cost(&self, x: int, y: int, l: int, present_factor: u32) -> u32 {
        if !self.in_bounds(x, y, l) || self.is_perm(self.idx(x, y, l)) {
            u32::MAX
        } else {
            self.raw_cost(self.idx(x, y, l), present_factor) as u32
        }
    }

    /// The cost of `(x, y, l)`, when it is a passable cell, fits in a `u32`.
    pub open spec fn cost_fits_at(&self, x: int, y: int, l: int, present_factor: u32) -> bool {
        self.in_bounds(x, y, l) && !self.is_perm(self.idx(x, y, l)) ==> self.raw_cost(self.idx(x, y, l), present_factor)
            <= u32::MAX
    }

    /// Every passable cell's cost fits in a `u32`.
    pub open spec fn costs_fit(&self, present_factor: u32) -> bool {
        forall|k: int|
            0 <= k < self.num_cells() && !self.is_perm(k) ==> #[trigger] self.raw_cost(
                k,
                present_factor,
            ) <= u32::MAX
    }

    /// An empty grid: no obstacles, no occupancy, no history. A board without
    /// layers still gets one plane.
    pub fn new(width: usize, height: usize, layer_names: Vec<String>) -> (g: GridMap)
        requires
            width >= 1,
            height >= 1,
            (if layer_names@.len() > 1 { layer_names@.len() as int } else { 1int }) * height
                * width <= usize::MAX,
        ensures
            g.wf(),
            g.width == width,
            g.height == height,
            g.num_layers == if layer_names@.len() > 1 { layer_names@.len() } else { 1 },
            g.layer_names@ == layer_names@,
            forall|k: int| 0 <= k < g.num_cells() ==> !g.is_perm(k),
            forall|k: int| 0 <= k < g.num_cells() ==> g.occupancy@[k] == 0,
            forall|k: int| 0 <= k < g.num_cells() ==> g.history@[k] == 0,
    {
        let num_layers = if layer_names.len() > 1 {
            layer_names.len()
        } else {
            1
        };
        proof {
            lemma_mul_mono(1, width as int, num_layers as int * height);
            assert(num_layers as int * height * width == width as int * (num_layers as int * height)) by (nonlinear_arith);
        }
        let total = num_layers * height * width;
        let perm: Vec<bool> = vec![false; total];
        let occupancy: Vec<u8> = vec![0u8; total];
        let history: Vec<u32> = vec![0u32; total];
        GridMap { width, height, num_layers, layer_names, perm, occupancy, history }
    }

    /// The position of the layer called `name`.
    pub fn layer_index(&self, name: &str) -> (r: Option<usize>)
        ensures
            match r {
                Some(i) => i < self.layer_names@.len() && self.layer_names@[i as int]@ == name@
                    && forall|j: int| 0 <= j < i ==> self.layer_names@[j]@ != name@,
                None => forall|j: int|
                    0 <= j < self.layer_names@.len() ==> self.layer_names@[j]@ != name@,
            },
    {
        let mut i: usize = 0;
        while i < self.layer_names.len()
            invariant
                i <= self.layer_names@.len(),
                forall|j: int| 0 <= j < i ==> self.layer_names@[j]@ != name@,
            decreases self.layer_names@.len() - i,
        {
            if str_eq(self.layer_names[i].as_str(), name) {
                return Some(i);
            }
            i = i + 1;
        }
        None
    }

    /// Position of `(ix, iy, layer)` in the flat cell arrays.
    pub fn flat(&self, ix: usize, iy: usize, layer: usize) -> (r: usize)
        requires
            self.wf(),
            self.in_bounds(ix as int, iy as int, layer as int) || self.idx(ix as int, iy as int, layer as int)
                <= usize::MAX,
        ensures
            r == self.idx(ix as int, iy as int, layer as int),
            self.in_bounds(ix as int, iy as int, layer as int) ==> r < self.num_cells(),
    {
        proof {
            if self.in_bounds(ix as int, iy as int, layer as int) {
                lemma_cell_index(
                    self.width as int,
                    self.height as int,
                    self.num_layers as int,
                    ix as int,
                    iy as int,
                    layer as int,
                );
            }
            assert(layer as int * self.height <= layer as int * self.height * self.width)
                by (nonlinear_arith)
                requires
                    self.width >= 1,
                    layer >= 0,
                    self.height >= 0,
            ;
            assert(iy as int * self.width <= self.idx(ix as int, iy as int, layer as int))
                by (nonlinear_arith)
                requires
                    layer >= 0,
                    self.height >= 0,
                    self.width >= 0,
                    ix >= 0,
            ;
        }
        layer * self.height * self.width + iy * self.width + ix
    }

    /// Traversal cost of `(ix, iy, layer)` under the current pass's congestion:
    /// `u32::MAX` for cells outside the grid and hard obstacles, otherwise
    /// `1 + present_factor × occupancy + history`.
    pub fn pf_cost(&self, ix: usize, iy: usize, layer: usize, present_factor: u32) -> (r: u32)
        requires
            self.wf(),
            self.cost_fits_at(ix as int, iy as int, layer as int, present_factor),
        ensures
            r == self.spec_pf_cost(ix as int, iy as int, layer as int, present_factor),
    {
        if ix >= self.width || iy >= self.height || layer >= self.num_layers {
            return u32::MAX;
        }
        let idx = self.flat(ix, iy, layer);
        if self.perm[idx] {
            return u32::MAX;
        }
        let occ = self.occupancy[idx] as u32;
        assert(self.raw_cost(idx as int, present_factor) <= u32::MAX);
        1 + sat_mul_u32_exec(present_factor, occ) + self.history[idx]
    }

    pub proof fn lemma_cost_fits_at(&self, x: int, y: int, l: int, present_factor: u32)
        requires
            self.wf(),
            self.costs_fit(present_factor),
        ensures
            self.cost_fits_at(x, y, l, present_factor),
    {
        if self.in_bounds(x, y, l) && !self.is_perm(self.idx(x, y, l)) {
            lemma_cell_index(self.width as int, self.height as int, self.num_layers as int, x, y, l);
            assert(self.raw_cost(self.idx(x, y, l), present_factor) <= u32::MAX);
        }
    }

    /// Clears all occupancy at the start of a PathFinder pass.
    pub fn reset_occupancy(&mut self)
        requires
            old(self).wf(),
        ensures
            final(self).wf(),
            final(self).width == old(self).width,
            final(self).height == old(self).height,
            final(self).num_layers == old(self).num_layers,
            final(self).layer_names == old(self).layer_names,
            final(self).perm_view() == old(self).perm_view(),
            final(self).history == old(self).history,
            forall|k: int| 0 <= k < final(self).num_cells() ==> final(self).occupancy@[k] == 0,
            final(self).legal(),
    {
        let n = self.occupancy.len();
        let mut i: usize = 0;
        while i < n
            invariant
                n == self.occupancy@.len(),
                i <= n,
                self.width == old(self).width,
                self.height == old(self).height,
                self.num_layers == old(self).num_layers,
                self.layer_names == old(self).layer_names,
                self.perm == old(self).perm,
                self.history == old(self).history,
                n == old(self).num_cells(),
                forall|k: int| 0 <= k < i ==> self.occupancy@[k] == 0,
            decreases n - i,
        {
            self.occupancy.set(i, 0);
            i = i + 1;
        }
    }

    /// Adds `h_inc` (saturating) to the history of every cell used by more than one net.
    pub fn update_history(&mut self, h_inc: u32)
        requires
            old(self).wf(),
        ensures
            final(self).wf(),
            final(self).width == old(self).width,
            final(self).height == old(self).height,
            final(self).num_layers == old(self).num_layers,
            final(self).layer_names == old(self).layer_names,
            final(self).perm_view() == old(self).perm_view(),
            final(self).occupancy == old(self).occupancy,
            forall|k: int|
                0 <= k < final(self).num_cells() ==> final(self).history@[k] == if old(
                    self,
                ).occupancy@[k] > 1 {
                    sat_add_u32(old(self).history@[k], h_inc)
                } else {
                    old(self).history@[k]
                },
            old(self).legal() ==> final(self).history@ == old(self).history@,
    {
        let n = self.occupancy.len();
        let mut i: usize = 0;
        while i < n
            invariant
                n == self.occupancy@.len() == self.history@.len(),
                i <= n,
                self.width == old(self).width,
                self.height == old(self).height,
                self.num_layers == old(self).num_layers,
                self.layer_names == old(self).layer_names,
                self.perm == old(self).perm,
                self.occupancy == old(self).occupancy,
                n == old(self).num_cells(),
                old(self).history@.len() == n,
                forall|k: int|
                    0 <= k < i ==> self.history@[k] == if old(self).occupancy@[k] > 1 {
                        sat_add_u32(old(self).history@[k], h_inc)
                    } else {
                        old(self).history@[k]
                    },
                forall|k: int| i <= k < n ==> self.history@[k] == old(self).history@[k],
            decreases n - i,
        {
            if self.occupancy[i] > 1 {
                let v = self.history[i].saturating_add(h_inc);
                self.history.set(i, v);
            }
            i = i + 1;
        }
        proof {
            if old(self).legal() {
                assert forall|k: int| 0 <= k < n implies self.history@[k] == old(self).history@[k] by {
                    assert(old(self).occupancy@[k] <= 1);
                }
                assert(self.history@ =~= old(self).history@);
            }
        }
    }

    /// True when no cell is shared by more than one net.
    pub fn is_legal(&self) -> (r: bool)
        ensures
            r == self.legal(),
    {
        let mut i: usize = 0;
        while i < self.occupancy.len()
            invariant
                i <= self.occupancy@.len(),
                forall|k: int| 0 <= k < i ==> self.occupancy@[k] <= 1,
            decreases self.occupancy@.len() - i,
        {
            if self.occupancy[i] > 1 {
                return false;
            }
            i = i + 1;
        }
        true
    }

    /// Marks `(x, y)` on `layer` as a hard obstacle; coordinates outside the grid
    /// are ignored.
    pub fn set_perm(&mut self, ix: usize, iy: usize, layer: usize)
        requires
            old(self).wf(),
        ensures
            final(self).wf(),
            final(self).width == old(self).width,
            final(self).height == old(self).height,
            final(self).num_layers == old(self).num_layers,
            final(self).layer_names == old(self).layer_names,
            final(self).occupancy == old(self).occupancy,
            final(self).history == old(self).history,
            final(self).perm_view() == if old(self).in_bounds(ix as int, iy as int, layer as int) {
                old(self).perm_view().update(old(self).idx(ix as int, iy as int, layer as int), true)
            } else {
                old(self).perm_view()
            },
    {
        if ix < self.width && iy < self.height && layer < self.num_layers {
            let idx = self.flat(ix, iy, layer);
            self.perm.set(idx, true);
        }
    }

    /// Whether cell `k` lies on `layer` within Manhattan distance `radius` of
    /// `(ix, iy)` and is not a hard obstacle.
    pub open spec fn in_halo(&self, k: int, ix: int, iy: int, layer: int, radius: int) -> bool {
        &&& self.cell_layer(k) == layer
        &&& abs_diff(self.cell_x(k), ix) + abs_diff(self.cell_y(k), iy) <= radius
        &&& !self.is_perm(k)
    }

    /// Marks `(ix, iy, layer)` and its Manhattan-radius halo as used by one more
    /// net (saturating); hard obstacles and cells outside the grid are skipped.
    pub fn mark_occupancy(&mut self, ix: usize, iy: usize, layer: usize, radius: usize)
        requires
            old(self).wf(),
            layer < old(self).num_layers,
            old(self).width <= i64::MAX,
            old(self).height <= i64::MAX,
            ix + radius <= i64::MAX,
            iy + radius <= i64::MAX,
            2 * radius <= i64::MAX,
        ensures
            final(self).wf(),
            final(self).width == old(self).width,
            final(self).height == old(self).height,
            final(self).num_layers == old(self).num_layers,
            final(self).layer_names == old(self).layer_names,
            final(self).perm == old(self).perm,
            final(self).history == old(self).history,
            forall|k: int|
                0 <= k < final(self).num_cells() ==> final(self).occupancy@[k] == if old(
                    self,
                ).in_halo(k, ix as int, iy as int, layer as int, radius as int) {
                    sat_add_u8(old(self).occupancy@[k], 1)
                } else {
                    old(self).occupancy@[k]
                },
    {
        let ghost n = self.num_cells();
        let ghost w = self.width as int;
        let ghost h = self.height as int;
        let ghost nl = self.num_layers as int;
        let r: i64 = radius as i64;
        let mut dy: i64 = -r;
        while dy <= r
            invariant
                -r <= dy <= r + 1,
                r == radius,
                self.wf(),
                n == self.num_cells(),
                w == self.width,
                h == self.height,
                nl == self.num_layers,
                layer < self.num_layers,
                self.width <= i64::MAX,
                self.height <= i64::MAX,
                ix + radius <= i64::MAX,
                iy + radius <= i64::MAX,
                2 * radius <= i64::MAX,
                self.width == old(self).width,
                self.height == old(self).height,
                self.num_layers == old(self).num_layers,
                self.layer_names == old(self).layer_names,
                self.perm == old(self).perm,
                self.history == old(self).history,
                forall|k: int|
                    0 <= k < n ==> self.occupancy@[k] == if old(self).in_halo(
                        k,
                        ix as int,
                        iy as int,
                        layer as int,
                        radius as int,
                    ) && self.cell_y(k) - iy < dy {
                        sat_add_u8(old(self).occupancy@[k], 1)
                    } else {
                        old(self).occupancy@[k]
                    },
            decreases r + 1 - dy,
        {
            let mut dx: i64 = -r;
            while dx <= r
                invariant
                    -r <= dx <= r + 1,
                    -r <= dy <= r,
                    r == radius,
                    self.wf(),
                    n == self.num_cells(),
                    w == self.width,
                    h == self.height,
                    nl == self.num_layers,
                    layer < self.num_layers,
                    self.width <= i64::MAX,
                    self.height <= i64::MAX,
                    ix + radius <= i64::MAX,
                    iy + radius <= i64::MAX,
                    2 * radius <= i64::MAX,
                    self.width == old(self).width,
                    self.height == old(self).height,
                    self.num_layers == old(self).num_layers,
                    self.layer_names == old(self).layer_names,
                    self.perm == old(self).perm,
                    self.history == old(self).history,
                    forall|k: int|
                        0 <= k < n ==> self.occupancy@[k] == if old(self).in_halo(
                            k,
                            ix as int,
                            iy as int,
                            layer as int,
                            radius as int,
                        ) && (self.cell_y(k) - iy < dy || (self.cell_y(k) - iy == dy
                            && self.cell_x(k) - ix < dx)) {
                            sat_add_u8(old(self).occupancy@[k], 1)
                        } else {
                            old(self).occupancy@[k]
                        },
                decreases r + 1 - dx,
            {
                let adx: i64 = if dx < 0 { -dx } else { dx };
                let ady: i64 = if dy < 0 { -dy } else { dy };
                if adx + ady <= r {
                    let nx: i64 = ix as i64 + dx;
                    let ny: i64 = iy as i64 + dy;
                    if nx >= 0 && ny >= 0 && nx < self.width as i64 && ny < self.height as i64 {
                        let idx = self.flat(nx as usize, ny as usize, layer);
                        proof {
                            lemma_cell_index(w, h, nl, nx as int, ny as int, layer as int);
                        }
                        if !self.perm[idx] {
                            let v = self.occupancy[idx].saturating_add(1);
                            let ghost before = self.occupancy@;
                            self.occupancy.set(idx, v);
                            proof {
                                assert forall|k: int| 0 <= k < n implies #[trigger] self.occupancy@[k]
                                    == if old(self).in_halo(
                                    k,
                                    ix as int,
                                    iy as int,
                                    layer as int,
                                    radius as int,
                                ) && (self.cell_y(k) - iy < dy || (self.cell_y(k) - iy == dy
                                    && self.cell_x(k) - ix < dx + 1)) {
                                    sat_add_u8(old(self).occupancy@[k], 1)
                                } else {
                                    old(self).occupancy@[k]
                                } by {
                                    lemma_index_cell(w, h, nl, k);
                                    if k != idx {
                                        if self.cell_y(k) - iy == dy && self.cell_x(k) - ix == dx
                                            && self.cell_layer(k) == layer {
                                            assert(k == cell_index(w, h, nx as int, ny as int, layer as int));
                                        }
                                    }
                                }
                            }
                        } else {
                            proof {
                                assert forall|k: int| 0 <= k < n implies #[trigger] self.occupancy@[k]
                                    == if old(self).in_halo(
                                    k,
                                    ix as int,
                                    iy as int,
                                    layer as int,
                                    radius as int,
                                ) && (self.cell_y(k) - iy < dy || (self.cell_y(k) - iy == dy
                                    && self.cell_x(k) - ix < dx + 1)) {
                                    sat_add_u8(old(self).occupancy@[k], 1)
                                } else {
                                    old(self).occupancy@[k]
                                } by {
                                    lemma_index_cell(w, h, nl, k);
                                    if self.cell_y(k) - iy == dy && self.cell_x(k) - ix == dx
                                        && self.cell_layer(k) == layer {
                                        assert(k == cell_index(w, h, nx as int, ny as int, layer as int));
                                    }
                                }
                            }
                        }
                    } else {
                        proof {
                            assert forall|k: int| 0 <= k < n implies #[trigger] self.occupancy@[k]
                                == if old(self).in_halo(
                                k,
                                ix as int,
                                iy as int,
                                layer as int,
                                radius as int,
                            ) && (self.cell_y(k) - iy < dy || (self.cell_y(k) - iy == dy
                                && self.cell_x(k) - ix < dx + 1)) {
                                sat_add_u8(old(self).occupancy@[k], 1)
                            } else {
                                old(self).occupancy@[k]
                            } by {
                                lemma_index_cell(w, h, nl, k);
                            }
                        }
                    }
                }
                dx = dx + 1;
            }
            dy = dy + 1;
        }
    }

    /// Zeroes the occupancy of every passable cell at the given pads, on all
    /// layers, so that the router can always reach them.
    pub fn expose_pads(&mut self, pads: &[(usize, usize)])
        requires
            old(self).wf(),
        ensures
            final(self).wf(),
            final(self).width == old(self).width,
            final(self).height == old(self).height,
            final(self).num_layers == old(self).num_layers,
            final(self).layer_names == old(self).layer_names,
            final(self).perm == old(self).perm,
            final(self).history == old(self).history,
            forall|k: int|
                0 <= k < final(self).num_cells() ==> final(self).occupancy@[k] == if !old(
                    self,
                ).is_perm(k) && pad_among(pads@, pads@.len() as int, old(self).cell_x(k), old(self).cell_y(k)) {
                    0
                } else {
                    old(self).occupancy@[k]
                },
    {
        let ghost n = self.num_cells();
        let ghost w = self.width as int;
        let ghost h = self.height as int;
        let ghost nl = self.num_layers as int;
        let nlayers = self.num_layers;
        let mut p: usize = 0;
        while p < pads.len()
            invariant
                p <= pads@.len(),
                self.wf(),
                n == self.num_cells(),
                w == self.width,
                h == self.height,
                nl == self.num_layers,
                nlayers == self.num_layers,
                self.width == old(self).width,
                self.height == old(self).height,
                self.num_layers == old(self).num_layers,
                self.layer_names == old(self).layer_names,
                self.perm == old(self).perm,
                self.history == old(self).history,
                forall|k: int|
                    0 <= k < n ==> #[trigger] self.occupancy@[k] == if !old(self).is_perm(k) && pad_among(pads@, p as int, old(self).cell_x(k), old(self).cell_y(k)) {
                        0
                    } else {
                        old(self).occupancy@[k]
                    },
            decreases pads@.len() - p,
        {
            let (ix, iy) = pads[p];
            let mut l: usize = 0;
            while l < nlayers
                invariant
                    p < pads@.len(),
                    (ix, iy) == pads@[p as int],
                    l <= nlayers,
                    self.wf(),
                    n == self.num_cells(),
                    w == self.width,
                    h == self.height,
                    nl == self.num_layers,
                    nlayers == self.num_layers,
                    self.width == old(self).width,
                    self.height == old(self).height,
                    self.num_layers == old(self).num_layers,
                    self.layer_names == old(self).layer_names,
                    self.perm == old(self).perm,
                    self.history == old(self).history,
                    forall|k: int|
                        0 <= k < n ==> #[trigger] self.occupancy@[k] == if !old(self).is_perm(k) && (pad_among(pads@, p as int, old(self).cell_x(k), old(self).cell_y(k))
                            || (ix == old(self).cell_x(k) && iy == old(self).cell_y(k) && old(self).cell_layer(k) < l)) {
                            0
                        } else {
                            old(self).occupancy@[k]
                        },
                decreases nlayers - l,
            {
                if ix < self.width && iy < self.height {
                    let idx = self.flat(ix, iy, l);
                    proof {
                        lemma_cell_index(w, h, nl, ix as int, iy as int, l as int);
                    }
                    if !self.perm[idx] {
                        self.occupancy.set(idx, 0);
                    }
                    proof {
                        assert forall|k: int| 0 <= k < n implies #[trigger] self.occupancy@[k]
                            == if !old(self).is_perm(k) && (pad_among(pads@, p as int, old(self).cell_x(k), old(self).cell_y(k))
                            || (ix == old(self).cell_x(k) && iy == old(self).cell_y(k) && old(self).cell_layer(k) < l + 1)) {
                            0
                        } else {
                            old(self).occupancy@[k]
                        } by {
                            lemma_index_cell(w, h, nl, k);
                            if ix == old(self).cell_x(k) && iy == old(self).cell_y(k)
                                && old(self).cell_layer(k) == l {
                                assert(k == idx);
                            }
                        }
                    }
                } else {
                    proof {
                        assert forall|k: int| 0 <= k < n implies #[trigger] self.occupancy@[k]
                            == if !old(self).is_perm(k) && (pad_among(pads@, p as int, old(self).cell_x(k), old(self).cell_y(k))
                            || (ix == old(self).cell_x(k) && iy == old(self).cell_y(k) && old(self).cell_layer(k) < l + 1)) {
                            0
                        } else {
                            old(self).occupancy@[k]
                        } by {
                            lemma_index_cell(w, h, nl, k);
                        }
                    }
                }
                l = l + 1;
            }
            proof {
                assert forall|k: int| 0 <= k < n implies #[trigger] self.occupancy@[k] == if !old(
                    self,
                ).is_perm(k) && pad_among(pads@, p + 1, old(self).cell_x(k), old(self).cell_y(k)) {
                    0
                } else {
                    old(self).occupancy@[k]
                } by {
                    lemma_index_cell(w, h, nl, k);
                    lemma_pad_among_step(pads@, p as int, old(self).cell_x(k), old(self).cell_y(k));
                }
            }
            p = p + 1;
        }
    }

    /// Marks every cell of the rectangle `[ix0, ix1] × [iy0, iy1]`, on every
    /// layer, as a hard obstacle; the part outside the grid is ignored.
    pub fn mark_rect_perm(&mut self, ix0: usize, iy0: usize, ix1: usize, iy1: usize)
        requires
            old(self).wf(),
        ensures
            final(self).wf(),
            final(self).width == old(self).width,
            final(self).height == old(self).height,
            final(self).num_layers == old(self).num_layers,
            final(self).layer_names == old(self).layer_names,
            final(self).occupancy == old(self).occupancy,
            final(self).history == old(self).history,
            forall|k: int|
                0 <= k < final(self).num_cells() ==> final(self).is_perm(k) == (old(self).is_perm(k)
                    || (ix0 <= old(self).cell_x(k) <= ix1 && iy0 <= old(self).cell_y(k) <= iy1)),
    {
        let ghost n = self.num_cells();
        let ghost w = self.width as int;
        let ghost h = self.height as int;
        let ghost nl = self.num_layers as int;
        let xe: usize = if ix1 < self.width { ix1 + 1 } else { self.width };
        let ye: usize = if iy1 < self.height { iy1 + 1 } else { self.height };
        let mut k: usize = 0;
        let total = self.perm.len();
        while k < total
            invariant
                self.wf(),
                total == n == self.num_cells(),
                k <= total,
                w == self.width,
                h == self.height,
                nl == self.num_layers,
                xe == if ix1 < w { ix1 + 1 } else { w },
                ye == if iy1 < h { iy1 + 1 } else { h },
                self.width == old(self).width,
                self.height == old(self).height,
                self.num_layers == old(self).num_layers,
                self.layer_names == old(self).layer_names,
                self.occupancy == old(self).occupancy,
                self.history == old(self).history,
                forall|j: int|
                    0 <= j < n ==> self.is_perm(j) == (old(self).is_perm(j) || (j < k && ix0
                        <= old(self).cell_x(j) <= ix1 && iy0 <= old(self).cell_y(j) <= iy1)),
            decreases total - k,
        {
            let x = k % self.width;
            let y = (k / self.width) % self.height;
            if ix0 <= x && x < xe && iy0 <= y && y < ye {
                self.perm.set(k, true);
            }
            proof {
                lemma_index_cell(w, h, nl, k as int);
            }
            k = k + 1;
        }
    }
}

} // verus!
