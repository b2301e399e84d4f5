use vstd::prelude::*;
use crate::grid::{GridMap, sat_add_u8};
use crate::search::{State, is_route, find_path, route_cost};

verus! {

// ─── Path simplification ────────────────────────────────────────────────────

pub open spec fn sgn(a: int, b: int) -> int {
    if b > a { 1 } else if b < a { -1 } else { 0 }
}

/// The direction of the step from `a` to `b`, each coordinate reduced to its sign.
pub open spec fn step_dir(a: (usize, usize), b: (usize, usize)) -> (int, int) {
    (sgn(a.0 as int, b.0 as int), sgn(a.1 as int, b.1 as int))
}

/// The points `p[i - 1]`, for `2 <= i < n`, at which the direction of travel changes.
pub open spec fn turns(p: Seq<(usize, usize)>, n: int) -> Seq<(usize, usize)>
    decreases n,
{
    if n <= 2 {
        Seq::empty()
    } else {
        turns(p, n - 1) + if step_dir(p[n - 2], p[n - 1]) != step_dir(p[n - 3], p[n - 2]) {
            seq![p[n - 2]]
        } else {
            Seq::empty()
        }
    }
}

/// A path reduced to its end points and the points where its direction changes.
pub open spec fn simplified(p: Seq<(usize, usize)>) -> Seq<(usize, usize)> {
    if p.len() <= 2 {
        p
    } else {
        seq![p[0]] + turns(p, p.len() as int) + seq![p.last()]
    }
}

/// The direction of travel changes at `p[t]`.
pub open spec fn is_turn(p: Seq<(usize, usize)>, t: int) -> bool {
    step_dir(p[t - 1], p[t]) != step_dir(p[t], p[t + 1])
}

/// The positions of the points that [`turns`] keeps.
spec fn turn_idx(p: Seq<(usize, usize)>, n: int) -> Seq<int>
    decreases n,
{
    if n <= 2 {
        Seq::empty()
    } else {
        turn_idx(p, n - 1) + if step_dir(p[n - 2], p[n - 1]) != step_dir(p[n - 3], p[n - 2]) {
            seq![n - 2]
        } else {
            Seq::empty()
        }
    }
}

proof fn lemma_turn_idx(p: Seq<(usize, usize)>, n: int)
    requires
        n <= p.len(),
    ensures
        turns(p, n) == turn_idx(p, n).map_values(|i: int| p[i]),
        forall|a: int, b: int| 0 <= a < b < turn_idx(p, n).len() ==> turn_idx(p, n)[a] < turn_idx(p, n)[b],
        forall|a: int| 0 <= a < turn_idx(p, n).len() ==> 1 <= #[trigger] turn_idx(p, n)[a] <= n - 2 && is_turn(p, turn_idx(p, n)[a]),
        forall|t: int| 1 <= t <= n - 2 && is_turn(p, t) ==> exists|a: int| 0 <= a < turn_idx(p, n).len() && #[trigger] turn_idx(p, n)[a] == t,
    decreases n,
{
    if n > 2 {
        lemma_turn_idx(p, n - 1);
        let prev = turn_idx(p, n - 1);
        let cur = turn_idx(p, n);
        assert(turns(p, n) =~= cur.map_values(|i: int| p[i]));
        assert forall|t: int| 1 <= t <= n - 2 && is_turn(p, t) implies exists|a: int| 0 <= a < cur.len() && #[trigger] cur[a] == t by {
            if t == n - 2 {
                assert(cur[cur.len() - 1] == t);
            } else {
                let a = choose|a: int| 0 <= a < prev.len() && #[trigger] prev[a] == t;
                assert(cur[a] == t);
            }
        }
    }
}

/// Over a stretch `[a, b]` of a path that turns nowhere strictly inside, every
/// step has the direction of the first one, and so does the whole stretch.
proof fn lemma_straight(p: Seq<(usize, usize)>, a: int, b: int)
    requires
        0 <= a < b < p.len(),
        forall|t: int| a < t < b ==> !is_turn(p, t),
    ensures
        forall|j: int| a <= j < b ==> step_dir(#[trigger] p[j], p[j + 1]) == step_dir(p[a], p[a + 1]),
        step_dir(p[a], p[b]) == step_dir(p[a], p[a + 1]),
    decreases b - a,
{
    if b > a + 1 {
        lemma_straight(p, a, b - 1);
        assert(!is_turn(p, b - 1));
        assert(step_dir(p[b - 2], p[b - 1]) == step_dir(p[a], p[a + 1]));
        assert(step_dir(p[b - 1], p[b]) == step_dir(p[a], p[a + 1]));
    }
}

/// The positions of `simplified(p)` in `p`.
spec fn kept_idx(p: Seq<(usize, usize)>) -> Seq<int> {
    seq![0int] + turn_idx(p, p.len() as int) + seq![p.len() - 1]
}

proof fn lemma_kept_idx(p: Seq<(usize, usize)>)
    requires
        p.len() > 2,
    ensures
        simplified(p) == kept_idx(p).map_values(|i: int| p[i]),
        forall|a: int, b: int| 0 <= a < b < kept_idx(p).len() ==> kept_idx(p)[a] < kept_idx(p)[b],
        forall|a: int| 0 <= a < kept_idx(p).len() ==> 0 <= #[trigger] kept_idx(p)[a] < p.len(),
        forall|a: int| 0 < a < kept_idx(p).len() - 1 ==> is_turn(p, #[trigger] kept_idx(p)[a]),
        forall|a: int, t: int|
            #![trigger kept_idx(p)[a], is_turn(p, t)]
            0 <= a < kept_idx(p).len() - 1 && kept_idx(p)[a] < t < kept_idx(p)[a + 1] ==> !is_turn(p, t),
{
    let n = p.len() as int;
    lemma_turn_idx(p, n);
    let ti = turn_idx(p, n);
    let k = kept_idx(p);
    assert(simplified(p) =~= k.map_values(|i: int| p[i]));
    assert forall|a: int| 0 < a < k.len() - 1 implies is_turn(p, #[trigger] k[a]) by {
        assert(k[a] == ti[a - 1]);
    }
    assert forall|a: int, b: int| 0 <= a < b < k.len() implies k[a] < k[b] by {
        if a > 0 && b < k.len() - 1 {
            assert(k[a] == ti[a - 1] && k[b] == ti[b - 1]);
        } else if a > 0 {
            assert(k[a] == ti[a - 1]);
        } else if b < k.len() - 1 {
            assert(k[b] == ti[b - 1]);
        }
    }
    assert forall|a: int, t: int| #![trigger k[a], is_turn(p, t)] 0 <= a < k.len() - 1 && k[a] < t < k[a + 1] implies !is_turn(p, t) by {
        if is_turn(p, t) {
            assert(1 <= t <= n - 2);
            let q = choose|q: int| 0 <= q < ti.len() && #[trigger] ti[q] == t;
            assert(k[q + 1] == t);
            if q + 1 <= a {
                if q + 1 < a {
                    assert(k[q + 1] < k[a]);
                }
            } else {
                if a + 1 < q + 1 {
                    assert(k[a + 1] < k[q + 1]);
                }
            }
        }
    }
}

/// Consecutive segments of a simplified path never run in the same direction.
proof fn lemma_simplified_turns(p: Seq<(usize, usize)>)
    ensures
        forall|i: int|
            0 <= i < simplified(p).len() - 2 ==> step_dir(#[trigger] simplified(p)[i], simplified(p)[i + 1])
                != step_dir(simplified(p)[i + 1], simplified(p)[i + 2]),
{
    if p.len() > 2 {
        lemma_kept_idx(p);
        let k = kept_idx(p);
        let r = simplified(p);
        assert forall|i: int| 0 <= i < r.len() - 2 implies step_dir(#[trigger] r[i], r[i + 1]) != step_dir(r[i + 1], r[i + 2]) by {
            let a = k[i];
            let b = k[i + 1];
            let c = k[i + 2];
            assert(a < b && b < c);
            assert(r[i] == p[a] && r[i + 1] == p[b] && r[i + 2] == p[c]);
            assert forall|t: int| a < t < b implies !is_turn(p, t) by {}
            assert forall|t: int| b < t < c implies !is_turn(p, t) by {}
            lemma_straight(p, a, b);
            lemma_straight(p, b, c);
            assert(is_turn(p, b));
            assert(step_dir(p[b - 1], p[b]) == step_dir(p[a], p[a + 1]));
        }
    }
}

/// The points that [`simplified`] keeps, in their order in `p`.
proof fn lemma_simplified_points(p: Seq<(usize, usize)>)
    ensures
        p.len() > 0 ==> simplified(p).len() >= 1 && simplified(p)[0] == p[0] && simplified(p).last() == p.last(),
        p.len() >= 2 ==> simplified(p).len() >= 2,
        forall|i: int| #![trigger simplified(p)[i]] 0 <= i < simplified(p).len() ==> exists|j: int| 0 <= j < p.len() && #[trigger] p[j] == simplified(p)[i],
{
    if p.len() > 2 {
        lemma_kept_idx(p);
        let k = kept_idx(p);
        assert forall|i: int| #![trigger simplified(p)[i]] 0 <= i < simplified(p).len() implies exists|j: int| 0 <= j < p.len() && #[trigger] p[j] == simplified(p)[i] by {
            assert(p[k[i]] == simplified(p)[i]);
        }
    } else {
        assert(simplified(p) == p);
        assert forall|i: int| #![trigger simplified(p)[i]] 0 <= i < simplified(p).len() implies exists|j: int| 0 <= j < p.len() && #[trigger] p[j] == simplified(p)[i] by {
            assert(p[i] == simplified(p)[i]);
        }
    }
}

proof fn lemma_turns_all(r: Seq<(usize, usize)>, n: int)
    requires
        2 <= n <= r.len(),
        forall|t: int| 1 <= t <= n - 2 ==> is_turn(r, t),
    ensures
        turns(r, n) == r.subrange(1, n - 1),
    decreases n,
{
    if n > 2 {
        lemma_turns_all(r, n - 1);
        assert(is_turn(r, n - 2));
        assert(turns(r, n) =~= r.subrange(1, n - 1));
    } else {
        assert(turns(r, n) =~= r.subrange(1, n - 1));
    }
}

/// Simplifying a simplified path changes nothing: every straight run has already
/// been merged into one segment.
pub proof fn law_simplify_idempotent(p: Seq<(usize, usize)>)
    ensures
        simplified(simplified(p)) == simplified(p),
{
    let r = simplified(p);
    lemma_simplified_turns(p);
    if r.len() > 2 {
        assert forall|t: int| 1 <= t <= r.len() - 2 implies is_turn(r, t) by {
            assert(step_dir(r[t - 1], r[t]) != step_dir(r[t], r[t + 1]));
        }
        lemma_turns_all(r, r.len() as int);
        assert(simplified(r) =~= r);
    }
}

fn sgn_exec(a: usize, b: usize) -> (r: i64)
    ensures
        r == sgn(a as int, b as int),
{
    if b > a { 1 } else if b < a { -1 } else { 0 }
}

/// Removes the intermediate points of straight runs: keeps the end points and
/// the points at which the direction of travel changes.
pub fn simplify_path(pts: &[(usize, usize)]) -> (r: Vec<(usize, usize)>)
    ensures
        r@ == simplified(pts@),
        pts@.len() > 0 ==> r@.len() >= 1 && r@[0] == pts@[0] && r@.last() == pts@.last(),
        pts@.len() >= 2 ==> r@.len() >= 2,
        forall|i: int| #![trigger r@[i]] 0 <= i < r@.len() ==> exists|j: int| 0 <= j < pts@.len() && #[trigger] pts@[j] == r@[i],
        forall|i: int| 0 <= i < r@.len() - 2 ==> step_dir(#[trigger] r@[i], r@[i + 1]) != step_dir(r@[i + 1], r@[i + 2]),
{
    let r = simplify_points(pts);
    proof {
        lemma_simplified_points(pts@);
        lemma_simplified_turns(pts@);
    }
    r
}

fn simplify_points(pts: &[(usize, usize)]) -> (r: Vec<(usize, usize)>)
    ensures
        r@ == simplified(pts@),
{
    let n = pts.len();
    if n <= 2 {
        let mut out: Vec<(usize, usize)> = Vec::new();
        let mut i: usize = 0;
        while i < n
            invariant
                n == pts@.len(),
                i <= n,
                out@ == pts@.take(i as int),
            decreases n - i,
        {
            out.push(pts[i]);
            assert(out@ =~= pts@.take(i + 1));
            i = i + 1;
        }
        assert(pts@.take(n as int) =~= pts@);
        return out;
    }
    let mut out: Vec<(usize, usize)> = Vec::new();
    out.push(pts[0]);
    let mut dx = sgn_exec(pts[0].0, pts[1].0);
    let mut dy = sgn_exec(pts[0].1, pts[1].1);
    let mut i: usize = 2;
    while i < n
        invariant
            n == pts@.len(),
            2 <= i <= n,
            out@ == seq![pts@[0]] + turns(pts@, i as int),
            (dx as int, dy as int) == step_dir(pts@[i - 2], pts@[i - 1]),
        decreases n - i,
    {
        let ndx = sgn_exec(pts[i - 1].0, pts[i].0);
        let ndy = sgn_exec(pts[i - 1].1, pts[i].1);
        if ndx != dx || ndy != dy {
            out.push(pts[i - 1]);
            dx = ndx;
            dy = ndy;
        }
        assert(out@ =~= seq![pts@[0]] + turns(pts@, i + 1));
        i = i + 1;
    }
    out.push(pts[n - 1]);
    out
}


// ─── Committing a path ──────────────────────────────────────────────────────

/// A straight-line wire of one routed net, on one layer, in grid coordinates.
#[derive(Clone, Debug)]
pub struct GridWire {
    pub layer: usize,
    /// The layer's name (empty when the grid has no name for it).
    pub layer_name: String,
    /// Corner points of the wire, end points included.
    pub points: Vec<(usize, usize)>,
}

/// The geometry of one routed connection, in grid coordinates.
pub struct RouteResult {
    pub wires: Vec<GridWire>,
    /// Every grid cell on the path (used by the caller to grow the route tree).
    pub path_cells: Vec<State>,
    /// Grid positions where the path changes layer.
    pub via_grid_cells: Vec<(usize, usize)>,
}

/// The maximal runs of consecutive cells of `p` that lie on one layer.
pub open spec fn layer_runs(p: Seq<State>) -> Seq<Seq<State>>
    decreases p.len(),
{
    if p.len() == 0 {
        Seq::empty()
    } else {
        let r = layer_runs(p.drop_last());
        if r.len() > 0 && r.last().last().2 == p.last().2 {
            r.drop_last().push(r.last().push(p.last()))
        } else {
            r.push(seq![p.last()])
        }
    }
}

pub open spec fn positions(run: Seq<State>) -> Seq<(usize, usize)> {
    run.map_values(|s: State| (s.0, s.1))
}

/// The runs that become wires: those of at least two cells.
pub open spec fn wire_runs(runs: Seq<Seq<State>>) -> Seq<Seq<State>>
    decreases runs.len(),
{
    if runs.len() == 0 {
        Seq::empty()
    } else {
        wire_runs(runs.drop_last()) + if runs.last().len() >= 2 {
            seq![runs.last()]
        } else {
            Seq::empty()
        }
    }
}

/// The via positions between the given runs: the last cell of each run that
/// another run follows.
pub open spec fn run_ends(runs: Seq<Seq<State>>) -> Seq<(usize, usize)> {
    runs.map_values(|r: Seq<State>| (r.last().0, r.last().1))
}

pub open spec fn layer_name_of(names: Seq<String>, l: int) -> Seq<char> {
    if 0 <= l < names.len() { names[l]@ } else { Seq::empty() }
}

/// `w` is the wire that the run `run` becomes.
pub open spec fn wire_of_run(w: GridWire, run: Seq<State>, names: Seq<String>) -> bool {
    &&& w.layer == run[0].2
    &&& w.layer_name@ == layer_name_of(names, run[0].2 as int)
    &&& w.points@ == simplified(positions(run))
}

/// The occupancy after one more net claims `(x, y, l)` and its halo of `radius`.
pub open spec fn mark_seq(g: &GridMap, occ: Seq<u8>, c: State, radius: int) -> Seq<u8> {
    Seq::new(
        occ.len(),
        |k: int|
            if g.in_halo(k, c.0 as int, c.1 as int, c.2 as int, radius) {
                sat_add_u8(occ[k], 1)
            } else {
                occ[k]
            },
    )
}

/// The occupancy after claiming each of `cells`, in order.
pub open spec fn mark_all(g: &GridMap, occ: Seq<u8>, cells: Seq<State>, radius: int) -> Seq<u8>
    decreases cells.len(),
{
    if cells.len() == 0 {
        occ
    } else {
        mark_seq(g, mark_all(g, occ, cells.drop_last(), radius), cells.last(), radius)
    }
}

/// Each via position on every layer, via by via.
pub open spec fn via_layers(vias: Seq<(usize, usize)>, num_layers: nat) -> Seq<State>
    decreases vias.len(),
{
    if vias.len() == 0 {
        Seq::empty()
    } else {
        via_layers(vias.drop_last(), num_layers) + Seq::new(
            num_layers,
            |l: int| (vias.last().0, vias.last().1, l as usize),
        )
    }
}

/// The grid allows a halo of `radius` around any of its cells without
/// overflow in the marking arithmetic.
pub open spec fn halo_fits(g: &GridMap, radius: usize) -> bool {
    &&& g.width + radius <= i64::MAX
    &&& g.height + radius <= i64::MAX
    &&& 2 * radius <= i64::MAX
}

pub open spec fn cells_in_bounds(g: &GridMap, cells: Seq<State>) -> bool {
    forall|i: int| 0 <= i < cells.len() ==> g.in_bounds(#[trigger] cells[i].0 as int, cells[i].1 as int, cells[i].2 as int)
}

pub open spec fn same_except_occupancy(a: &GridMap, b: &GridMap) -> bool {
    &&& a.wf()
    &&& b.wf()
    &&& a.width == b.width
    &&& a.height == b.height
    &&& a.num_layers == b.num_layers
    &&& a.layer_names == b.layer_names
    &&& a.perm@ == b.perm@
    &&& a.history@ == b.history@
}

proof fn lemma_runs_step(p: Seq<State>, i: int)
    requires
        0 <= i < p.len(),
    ensures
        layer_runs(p.take(i + 1)) == {
            let r = layer_runs(p.take(i));
            if r.len() > 0 && r.last().last().2 == p[i].2 {
                r.drop_last().push(r.last().push(p[i]))
            } else {
                r.push(seq![p[i]])
            }
        },
{
    assert(p.take(i + 1).drop_last() =~= p.take(i));
}

proof fn lemma_wire_runs_push(runs: Seq<Seq<State>>, r: Seq<State>)
    ensures
        wire_runs(runs.push(r)) == wire_runs(runs) + if r.len() >= 2 { seq![r] } else { Seq::<Seq<State>>::empty() },
{
    assert(runs.push(r).drop_last() =~= runs);
}

proof fn lemma_mark_all_push(g: &GridMap, occ: Seq<u8>, cells: Seq<State>, c: State, radius: int)
    ensures
        mark_all(g, occ, cells.push(c), radius) == mark_seq(g, mark_all(g, occ, cells, radius), c, radius),
{
    assert(cells.push(c).drop_last() =~= cells);
}

proof fn lemma_mark_all_len(g: &GridMap, occ: Seq<u8>, cells: Seq<State>, radius: int)
    ensures
        mark_all(g, occ, cells, radius).len() == occ.len(),
    decreases cells.len(),
{
    if cells.len() > 0 {
        lemma_mark_all_len(g, occ, cells.drop_last(), radius);
    }
}

/// Claims `c` and its halo for one more net; the result is [`mark_seq`].
fn mark_cell(g: &mut GridMap, c: State, radius: usize)
    requires
        old(g).wf(),
        c.2 < old(g).num_layers,
        c.0 < old(g).width,
        c.1 < old(g).height,
        halo_fits(&*old(g), radius),
        old(g).width <= i64::MAX,
        old(g).height <= i64::MAX,
    ensures
        same_except_occupancy(&*old(g), &*final(g)),
        final(g).occupancy@ == mark_seq(&*old(g), old(g).occupancy@, c, radius as int),
{
    g.mark_occupancy(c.0, c.1, c.2, radius);
    assert(g.occupancy@ =~= mark_seq(&*old(g), old(g).occupancy@, c, radius as int));
}

pub fn copy_cells(v: &Vec<State>) -> (r: Vec<State>)
    ensures
        r@ == v@,
{
    let mut out: Vec<State> = Vec::new();
    let mut i: usize = 0;
    while i < v.len()
        invariant
            i <= v@.len(),
            out@ == v@.take(i as int),
        decreases v@.len() - i,
    {
        out.push(v[i]);
        assert(out@ =~= v@.take(i + 1));
        i = i + 1;
    }
    assert(v@.take(v@.len() as int) =~= v@);
    out
}

/// Appends the wire of the run `path[from..to]` when the run has at least two cells.
fn push_run_wire(
    g: &GridMap,
    path: &Vec<State>,
    from: usize,
    to: usize,
    wires: &mut Vec<GridWire>,
    Ghost(done): Ghost<Seq<Seq<State>>>,
)
    requires
        from < to <= path@.len(),
        old(wires)@.len() == wire_runs(done).len(),
        forall|j: int|
            0 <= j < old(wires)@.len() ==> wire_of_run(#[trigger] old(wires)@[j], wire_runs(done)[j], g.layer_names@),
    ensures
        final(wires)@.len() == wire_runs(done.push(path@.subrange(from as int, to as int))).len(),
        forall|j: int|
            0 <= j < final(wires)@.len() ==> wire_of_run(
                #[trigger] final(wires)@[j],
                wire_runs(done.push(path@.subrange(from as int, to as int)))[j],
                g.layer_names@,
            ),
{
    let ghost seg = path@.subrange(from as int, to as int);
    if to - from >= 2 {
        let mut coords: Vec<(usize, usize)> = Vec::new();
        let mut k = from;
        while k < to
            invariant
                from <= k <= to <= path@.len(),
                seg == path@.subrange(from as int, to as int),
                coords@ == positions(seg.take(k - from)),
            decreases to - k,
        {
            coords.push((path[k].0, path[k].1));
            assert(seg.take(k + 1 - from) =~= seg.take(k - from).push(path@[k as int]));
            assert(coords@ =~= positions(seg.take(k + 1 - from)));
            k = k + 1;
        }
        assert(seg.take(to - from) =~= seg);
        let points = simplify_path(coords.as_slice());
        let layer = path[from].2;
        let layer_name = if layer < g.layer_names.len() {
            g.layer_names[layer].clone()
        } else {
            String::new()
        };
        assert(seg[0] == path@[from as int]);
        wires.push(GridWire { layer, layer_name, points });
    }
    proof {
        lemma_wire_runs_push(done, seg);
        let ws = wire_runs(done.push(seg));
        assert forall|j: int| 0 <= j < wires@.len() implies wire_of_run(#[trigger] wires@[j], ws[j], g.layer_names@) by {
            if j < wire_runs(done).len() {
                assert(ws[j] == wire_runs(done)[j]);
            } else {
                assert(ws[j] == seg);
            }
        }
    }
}

/// Turns a found path into wires (one per same-layer run of at least two
/// cells, simplified) and via positions (where the layer changes), then claims
/// the path's cells, and every layer at each via, with a clearance halo.
pub fn commit_path(g: &mut GridMap, path: &Vec<State>, clearance_cells: usize) -> (r: RouteResult)
    requires
        old(g).wf(),
        cells_in_bounds(&*old(g), path@),
        halo_fits(&*old(g), clearance_cells),
        old(g).width <= i64::MAX,
        old(g).height <= i64::MAX,
    ensures
        same_except_occupancy(&*old(g), &*final(g)),
        r.path_cells@ == path@,
        r.wires@.len() == wire_runs(layer_runs(path@)).len(),
        forall|i: int|
            0 <= i < r.wires@.len() ==> wire_of_run(
                #[trigger] r.wires@[i],
                wire_runs(layer_runs(path@))[i],
                old(g).layer_names@,
            ),
        layer_runs(path@).len() > 0 ==> r.via_grid_cells@ == run_ends(layer_runs(path@).drop_last()),
        layer_runs(path@).len() == 0 ==> r.via_grid_cells@.len() == 0,
        final(g).occupancy@ == mark_all(
            &*old(g),
            old(g).occupancy@,
            path@ + via_layers(r.via_grid_cells@, old(g).num_layers as nat),
            clearance_cells as int,
        ),
{
    let ghost p = path@;
    let mut wires: Vec<GridWire> = Vec::new();
    let mut via_grid_cells: Vec<(usize, usize)> = Vec::new();
    let n = path.len();
    if n > 0 {
        let mut seg_start: usize = 0;
        let mut i: usize = 1;
        let ghost mut done: Seq<Seq<State>> = Seq::empty();
        assert(layer_runs(p.take(0)) =~= Seq::<Seq<State>>::empty());
        assert(p.take(1).drop_last() =~= p.take(0));
        assert(p.take(1).last() == p[0]);
        assert(p.subrange(0, 1) =~= seq![p[0]]);
        assert(layer_runs(p.take(1)) =~= done.push(p.subrange(0, 1)));
        while i < n
            invariant
                n == p.len() == path@.len(),
                p == path@,
                n > 0,
                0 <= seg_start < i <= n,
                layer_runs(p.take(i as int)) == done.push(p.subrange(seg_start as int, i as int)),
                forall|k: int| seg_start <= k < i ==> (#[trigger] p[k]).2 == p[seg_start as int].2,
                done.len() > 0 ==> done.last().last().2 != p[seg_start as int].2,
                via_grid_cells@ == run_ends(done),
                forall|j: int| 0 <= j < via_grid_cells@.len() ==> (#[trigger] via_grid_cells@[j]).0 < old(g).width && via_grid_cells@[j].1 < old(g).height,
                cells_in_bounds(&*old(g), p),
                wires@.len() == wire_runs(done).len(),
                forall|j: int|
                    0 <= j < wires@.len() ==> wire_of_run(#[trigger] wires@[j], wire_runs(done)[j], g.layer_names@),
                g.wf(),
                *g == *old(g),
            decreases n - i,
        {
            if path[i].2 != path[seg_start].2 {
                let ghost seg = p.subrange(seg_start as int, i as int);
                push_run_wire(&*g, path, seg_start, i, &mut wires, Ghost(done));
                let (vx, vy, _) = path[i - 1];
                via_grid_cells.push((vx, vy));
                proof {
                    assert(seg.last() == p[i - 1]);
                    assert(p[i - 1] == p[(i - 1) as int]);
                    assert(run_ends(done.push(seg)) =~= run_ends(done).push((vx, vy)));
                    let old_done = done;
                    done = done.push(seg);
                    lemma_runs_step(p, i as int);
                    assert(old_done.push(seg).last().last().2 != p[i as int].2);
                    assert(p.subrange(i as int, i + 1) =~= seq![p[i as int]]);
                    assert forall|j: int| 0 <= j < via_grid_cells@.len() implies (#[trigger] via_grid_cells@[j]).0 < old(g).width && via_grid_cells@[j].1 < old(g).height by {
                        if j == via_grid_cells@.len() - 1 {
                            assert(old(g).in_bounds(p[i - 1].0 as int, p[i - 1].1 as int, p[i - 1].2 as int));
                        }
                    }
                }
                seg_start = i;
            } else {
                proof {
                    lemma_runs_step(p, i as int);
                    assert(p.subrange(seg_start as int, i as int).last() == p[i - 1]);
                    assert(p.subrange(seg_start as int, i + 1) =~= p.subrange(seg_start as int, i as int).push(p[i as int]));
                    assert(done.push(p.subrange(seg_start as int, i as int)).drop_last() =~= done);
                }
            }
            i = i + 1;
        }
        let ghost seg = p.subrange(seg_start as int, n as int);
        push_run_wire(&*g, path, seg_start, n, &mut wires, Ghost(done));
        proof {
            assert(p.take(n as int) =~= p);
            let old_done = done;
            done = done.push(seg);
            assert(done.drop_last() =~= old_done);
            assert(layer_runs(p) == done);
        }
    } else {
        assert(layer_runs(p) =~= Seq::<Seq<State>>::empty());
    }
    // Claim the path's cells and, at each via, every layer.
    let ghost start = *g;
    let mut c: usize = 0;
    while c < path.len()
        invariant
            same_except_occupancy(&start, &*g),
            start == *old(g),
            c <= path@.len(),
            cells_in_bounds(&start, path@),
            halo_fits(&start, clearance_cells),
            start.width <= i64::MAX,
            start.height <= i64::MAX,
            g.occupancy@ == mark_all(&start, start.occupancy@, path@.take(c as int), clearance_cells as int),
        decreases path@.len() - c,
    {
        let cell = path[c];
        assert(start.in_bounds(path@[c as int].0 as int, path@[c as int].1 as int, path@[c as int].2 as int));
        mark_cell(g, cell, clearance_cells);
        proof {
            assert(path@.take(c + 1) =~= path@.take(c as int).push(cell));
            lemma_mark_all_push(&start, start.occupancy@, path@.take(c as int), cell, clearance_cells as int);
            assert(mark_seq(&start, mark_all(&start, start.occupancy@, path@.take(c as int), clearance_cells as int), cell, clearance_cells as int)
                =~= mark_seq(&*g, mark_all(&start, start.occupancy@, path@.take(c as int), clearance_cells as int), cell, clearance_cells as int));
        }
        c = c + 1;
    }
    assert(path@.take(path@.len() as int) =~= path@);
    let nl = g.num_layers;
    let mut v: usize = 0;
    while v < via_grid_cells.len()
        invariant
            same_except_occupancy(&start, &*g),
            start == *old(g),
            nl == start.num_layers,
            v <= via_grid_cells@.len(),
            forall|j: int| 0 <= j < via_grid_cells@.len() ==> (#[trigger] via_grid_cells@[j]).0 < start.width && via_grid_cells@[j].1 < start.height,
            halo_fits(&start, clearance_cells),
            start.width <= i64::MAX,
            start.height <= i64::MAX,
            g.occupancy@ == mark_all(&start, start.occupancy@, path@ + via_layers(via_grid_cells@.take(v as int), nl as nat), clearance_cells as int),
        decreases via_grid_cells@.len() - v,
    {
        let (vx, vy) = via_grid_cells[v];
        let ghost prefix = path@ + via_layers(via_grid_cells@.take(v as int), nl as nat);
        let mut l: usize = 0;
        while l < nl
            invariant
                same_except_occupancy(&start, &*g),
                start == *old(g),
                nl == start.num_layers,
                l <= nl,
                vx < start.width,
                vy < start.height,
                halo_fits(&start, clearance_cells),
                start.width <= i64::MAX,
                start.height <= i64::MAX,
                g.occupancy@ == mark_all(&start, start.occupancy@, prefix + Seq::new(l as nat, |m: int| (vx, vy, m as usize)), clearance_cells as int),
            decreases nl - l,
        {
            mark_cell(g, (vx, vy, l), clearance_cells);
            proof {
                let before = prefix + Seq::new(l as nat, |m: int| (vx, vy, m as usize));
                assert(prefix + Seq::new((l + 1) as nat, |m: int| (vx, vy, m as usize)) =~= before.push((vx, vy, l)));
                lemma_mark_all_push(&start, start.occupancy@, before, (vx, vy, l), clearance_cells as int);
                assert(mark_seq(&start, mark_all(&start, start.occupancy@, before, clearance_cells as int), (vx, vy, l), clearance_cells as int)
                    =~= mark_seq(&*g, mark_all(&start, start.occupancy@, before, clearance_cells as int), (vx, vy, l), clearance_cells as int));
            }
            l = l + 1;
        }
        proof {
            let vs = via_grid_cells@.take(v + 1);
            assert(vs.drop_last() =~= via_grid_cells@.take(v as int));
            assert(vs.last() == (vx, vy));
            assert(path@ + via_layers(vs, nl as nat) =~= prefix + Seq::new(nl as nat, |m: int| (vx, vy, m as usize)));
        }
        v = v + 1;
    }
    assert(via_grid_cells@.take(via_grid_cells@.len() as int) =~= via_grid_cells@);
    RouteResult { wires, path_cells: copy_cells(path), via_grid_cells }
}

/// The facts that [`commit_path`] establishes about a path `p` and its result.
pub open spec fn committed(before: &GridMap, after: &GridMap, p: Seq<State>, r: &RouteResult, clearance_cells: usize) -> bool {
    &&& same_except_occupancy(before, after)
    &&& r.path_cells@ == p
    &&& r.wires@.len() == wire_runs(layer_runs(p)).len()
    &&& forall|i: int|
        0 <= i < r.wires@.len() ==> wire_of_run(
            #[trigger] r.wires@[i],
            wire_runs(layer_runs(p))[i],
            before.layer_names@,
        )
    &&& layer_runs(p).len() > 0 ==> r.via_grid_cells@ == run_ends(layer_runs(p).drop_last())
    &&& after.occupancy@ == mark_all(
        before,
        before.occupancy@,
        p + via_layers(r.via_grid_cells@, before.num_layers as nat),
        clearance_cells as int,
    )
}

/// Every cell that a move enters lies inside the grid.
pub proof fn lemma_route_in_bounds(
    g: &GridMap,
    sources: Seq<State>,
    targets: Seq<(usize, usize)>,
    p: Seq<State>,
    present_factor: u32,
    via_cost: u32,
)
    requires
        is_route(g, sources, targets, p, present_factor, via_cost),
        cells_in_bounds(g, sources),
    ensures
        cells_in_bounds(g, p),
{
    assert forall|i: int| 0 <= i < p.len() implies g.in_bounds(#[trigger] p[i].0 as int, p[i].1 as int, p[i].2 as int) by {
        if i == 0 {
            let j = choose|j: int| 0 <= j < sources.len() && sources[j] == p[0];
            assert(g.in_bounds(sources[j].0 as int, sources[j].1 as int, sources[j].2 as int));
        } else {
            let k = i - 1;
            assert(crate::search::edge_cost(g, Seq::empty(), Some(p[k]), Some(p[k + 1]), present_factor, via_cost) is Some);
        }
    }
}

/// Finds the lowest-cost path from any source to any cell at one of `targets`,
/// then commits it to the grid; `None` (grid unchanged) when no path exists.
pub fn route_net(
    g: &mut GridMap,
    sources: &Vec<State>,
    targets: &Vec<(usize, usize)>,
    via_cost: u32,
    present_factor: u32,
    clearance_cells: usize,
) -> (r: Option<RouteResult>)
    requires
        old(g).wf(),
        old(g).costs_fit(present_factor),
        cells_in_bounds(&*old(g), sources@),
        halo_fits(&*old(g), clearance_cells),
        old(g).width <= i64::MAX,
        old(g).height <= i64::MAX,
    ensures
        match r {
            Some(res) => is_route(&*old(g), sources@, targets@, res.path_cells@, present_factor, via_cost)
                && (forall|q: Seq<State>|
                is_route(&*old(g), sources@, targets@, q, present_factor, via_cost) ==> route_cost(
                    &*old(g),
                    res.path_cells@,
                    present_factor,
                    via_cost,
                ) <= #[trigger] route_cost(&*old(g), q, present_factor, via_cost))
                && committed(&*old(g), &*final(g), res.path_cells@, &res, clearance_cells),
            None => *final(g) == *old(g) && forall|p: Seq<State>|
                !is_route(&*old(g), sources@, targets@, p, present_factor, via_cost),
        },
{
    let path = find_path(&*g, sources, targets, via_cost, present_factor);
    match path {
        None => None,
        Some(path) => {
            proof {
                lemma_route_in_bounds(&*g, sources@, targets@, path@, present_factor, via_cost);
            }
            let res = commit_path(g, &path, clearance_cells);
            Some(res)
        },
    }
}
} // verus!
