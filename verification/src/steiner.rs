use vstd::prelude::*;
use crate::grid::{GridMap, sat_mul_u32, pad_among};
use crate::search::{State, is_route, edge_cost, step_cost, is_grid_walk, route_cost};
use crate::commit::{
    GridWire, cells_in_bounds, halo_fits, same_except_occupancy, wire_runs, layer_runs,
    run_ends, wire_of_run, route_net, committed, mark_all, via_layers, mark_seq,
};

verus! {

/// Two cells joined by one move: neighbours on one layer, or one position on
/// adjacent layers.
pub open spec fn adjacent(a: State, b: State) -> bool {
    let dx = b.0 - a.0;
    let dy = b.1 - a.1;
    ||| (b.2 == a.2 && -1 <= dx <= 1 && -1 <= dy <= 1 && !(dx == 0 && dy == 0))
    ||| (dx == 0 && dy == 0 && (b.2 == a.2 + 1 || b.2 + 1 == a.2))
}

/// A cell inside the grid that is no hard obstacle.
pub open spec fn open_cell(g: &GridMap, c: State) -> bool {
    g.in_bounds(c.0 as int, c.1 as int, c.2 as int) && !g.is_perm(g.idx(c.0 as int, c.1 as int, c.2 as int))
}

/// A sequence of cells that a wire can follow: each step a move onto an open cell.
pub open spec fn is_track(g: &GridMap, p: Seq<State>) -> bool {
    &&& p.len() >= 1
    &&& forall|i: int| 0 <= i < p.len() - 1 ==> #[trigger] track_step(g, p, i)
}

/// Step `i` of `p` is a move onto an open cell.
pub open spec fn track_step(g: &GridMap, p: Seq<State>, i: int) -> bool {
    adjacent(p[i], p[i + 1]) && open_cell(g, p[i + 1])
}

/// Every move of the search graph is a step of a track.
pub proof fn lemma_route_is_track(
    g: &GridMap,
    sources: Seq<State>,
    targets: Seq<(usize, usize)>,
    p: Seq<State>,
    present_factor: u32,
    via_cost: u32,
)
    requires
        is_route(g, sources, targets, p, present_factor, via_cost),
    ensures
        is_track(g, p),
{
    assert forall|i: int| 0 <= i < p.len() - 1 implies #[trigger] track_step(g, p, i) by {
        assert(edge_cost(g, Seq::empty(), Some(p[i]), Some(p[i + 1]), present_factor, via_cost) is Some);
    }
}

/// Whether a sequence of cells is a track depends only on the grid's shape
/// and obstacles.
pub proof fn lemma_track_same_grid(a: &GridMap, b: &GridMap, p: Seq<State>)
    requires
        is_track(a, p),
        a.width == b.width,
        a.height == b.height,
        a.num_layers == b.num_layers,
        a.perm@ == b.perm@,
    ensures
        is_track(b, p),
{
    assert forall|i: int| 0 <= i < p.len() - 1 implies #[trigger] track_step(b, p, i) by {
        assert(track_step(a, p, i));
    }
}

/// An open cell that stays passable at every occupancy: its cost stays below
/// `u32::MAX` even when 255 nets use it.
pub open spec fn clear_cell(g: &GridMap, c: State, present_factor: u32) -> bool {
    &&& open_cell(g, c)
    &&& 1 + sat_mul_u32(present_factor, 255) + g.history@[g.idx(c.0 as int, c.1 as int, c.2 as int)] < u32::MAX
}

/// A track over cells that stay passable at every occupancy.
pub open spec fn clear_track(g: &GridMap, p: Seq<State>, present_factor: u32) -> bool {
    &&& p.len() >= 1
    &&& forall|i: int|
        0 <= i < p.len() - 1 ==> adjacent(p[i], #[trigger] p[i + 1]) && clear_cell(g, p[i + 1], present_factor)
}

/// `p` is a clear track from pad `a` (on a layer of the grid) to pad `b`.
pub open spec fn clear_track_between(
    g: &GridMap,
    p: Seq<State>,
    a: (usize, usize),
    b: (usize, usize),
    present_factor: u32,
) -> bool {
    clear_track(g, p, present_factor) && pos(p[0]) == a && p[0].2 < g.num_layers && pos(p.last()) == b
}

/// Pad `b` can be reached from pad `a` over cells that stay passable.
pub open spec fn reachable(g: &GridMap, a: (usize, usize), b: (usize, usize), present_factor: u32) -> bool {
    exists|p: Seq<State>| #[trigger] clear_track_between(g, p, a, b, present_factor)
}

/// A clear track from a source to a target is a route of the search, whatever
/// the occupancy.
proof fn lemma_clear_track_route(
    g0: &GridMap,
    g: &GridMap,
    sources: Seq<State>,
    targets: Seq<(usize, usize)>,
    p: Seq<State>,
    present_factor: u32,
    via_cost: u32,
)
    requires
        same_except_occupancy(g0, g),
        clear_track(g0, p, present_factor),
        sources.contains(p[0]),
        targets.contains(pos(p.last())),
    ensures
        is_route(g, sources, targets, p, present_factor, via_cost),
{
    assert forall|i: int| 0 <= i < p.len() - 1 implies #[trigger] edge_cost(
        g,
        Seq::empty(),
        Some(p[i]),
        Some(p[i + 1]),
        present_factor,
        via_cost,
    ) is Some by {
        let a = p[i];
        let b = p[i + 1];
        assert(adjacent(a, b) && clear_cell(g0, b, present_factor));
        let k = g.idx(b.0 as int, b.1 as int, b.2 as int);
        crate::grid::lemma_cell_index(g.width as int, g.height as int, g.num_layers as int, b.0 as int, b.1 as int, b.2 as int);
        let o = g.occupancy@[k] as u32;
        assert(present_factor as int * o as int <= present_factor as int * 255) by (nonlinear_arith)
            requires
                o <= 255,
        ;
        assert(g.raw_cost(k, present_factor) < u32::MAX);
        assert(g.spec_pf_cost(b.0 as int, b.1 as int, b.2 as int, present_factor) < u32::MAX);
    }
}

/// When no route leads from a set of sources that holds a pad on every layer
/// to a target, no clear track leads from that pad to the target.
proof fn lemma_unreachable(
    g0: &GridMap,
    g: &GridMap,
    sources: Seq<State>,
    targets: Seq<(usize, usize)>,
    from: (usize, usize),
    to: (usize, usize),
    present_factor: u32,
    via_cost: u32,
)
    requires
        same_except_occupancy(g0, g),
        forall|m: usize| m < g0.num_layers ==> #[trigger] sources.contains((from.0, from.1, m)),
        targets == seq![to],
        forall|p: Seq<State>| !is_route(g, sources, targets, p, present_factor, via_cost),
    ensures
        !reachable(g0, from, to, present_factor),
{
    if reachable(g0, from, to, present_factor) {
        let q = choose|q: Seq<State>| #[trigger] clear_track_between(g0, q, from, to, present_factor);
        assert(q[0] == (from.0, from.1, q[0].2));
        assert(sources.contains((from.0, from.1, q[0].2)));
        assert(targets[0] == to);
        assert(targets.contains(pos(q.last())));
        lemma_clear_track_route(g0, g, sources, targets, q, present_factor, via_cost);
    }
}

proof fn lemma_push_keeps(s: Seq<State>, c: State)
    ensures
        forall|x: State| s.contains(x) ==> #[trigger] s.push(c).contains(x),
        s.push(c).contains(c),
{
    assert forall|x: State| s.contains(x) implies #[trigger] s.push(c).contains(x) by {
        let k = choose|k: int| 0 <= k < s.len() && s[k] == x;
        assert(s.push(c)[k] == x);
    }
    assert(s.push(c)[s.len() as int] == c);
}

/// Position of a cell.
pub open spec fn pos(c: State) -> (usize, usize) {
    (c.0, c.1)
}

/// `c` belongs to the tree grown by the first `j` connections: it stands on
/// the first pad or on an already connected pad (on a layer of the grid), or
/// lies on an earlier connection's path.
pub open spec fn in_tree(
    pads: Seq<(usize, usize)>,
    paths: Seq<Seq<State>>,
    order: Seq<int>,
    num_layers: nat,
    j: int,
    c: State,
) -> bool {
    ||| (pos(c) == pads[0] && c.2 < num_layers)
    ||| exists|m: int| 0 <= m < j && (#[trigger] paths[m]).contains(c)
    ||| exists|m: int| 0 <= m < j && pos(c) == pads[#[trigger] order[m]] && c.2 < num_layers
}

/// The connections `paths`, made in the pad order `order`, join every pad of
/// `pads` to the first: connection `j` is a track from the tree grown so far
/// to pad `order[j]`, and `order` lists every other pad once.
pub open spec fn connects_all(
    g: &GridMap,
    pads: Seq<(usize, usize)>,
    paths: Seq<Seq<State>>,
    order: Seq<int>,
) -> bool {
    &&& pads.len() >= 2
    &&& paths.len() == order.len() == pads.len() - 1
    &&& order.no_duplicates()
    &&& forall|j: int| 0 <= j < order.len() ==> 1 <= #[trigger] order[j] < pads.len()
    &&& forall|j: int|
        0 <= j < paths.len() ==> is_track(g, #[trigger] paths[j]) && in_tree(
            pads,
            paths,
            order,
            g.num_layers as nat,
            j,
            paths[j][0],
        ) && pos(paths[j].last()) == pads[order[j]]
}

/// The wire runs of each connection, one connection after another.
pub open spec fn all_wire_runs(paths: Seq<Seq<State>>) -> Seq<Seq<State>>
    decreases paths.len(),
{
    if paths.len() == 0 {
        Seq::empty()
    } else {
        all_wire_runs(paths.drop_last()) + wire_runs(layer_runs(paths.last()))
    }
}

pub open spec fn vias_of(p: Seq<State>) -> Seq<(usize, usize)> {
    if layer_runs(p).len() > 0 {
        run_ends(layer_runs(p).drop_last())
    } else {
        Seq::empty()
    }
}

/// The via positions of each connection, one connection after another.
pub open spec fn all_vias(paths: Seq<Seq<State>>) -> Seq<(usize, usize)>
    decreases paths.len(),
{
    if paths.len() == 0 {
        Seq::empty()
    } else {
        all_vias(paths.drop_last()) + vias_of(paths.last())
    }
}

/// The wires are those of the connections' runs, in order.
pub open spec fn wires_of_paths(wires: Seq<GridWire>, paths: Seq<Seq<State>>, names: Seq<String>) -> bool {
    &&& wires.len() == all_wire_runs(paths).len()
    &&& forall|i: int| 0 <= i < wires.len() ==> wire_of_run(#[trigger] wires[i], all_wire_runs(paths)[i], names)
}

/// Passable cells cost at most `u32::MAX` whatever their occupancy.
pub open spec fn costs_fit_any_occupancy(g: &GridMap, present_factor: u32) -> bool {
    forall|k: int|
        0 <= k < g.num_cells() && !g.is_perm(k) ==> 1 + sat_mul_u32(present_factor, 255) + #[trigger] g.history@[k] <= u32::MAX
}

pub proof fn lemma_costs_fit(g: &GridMap, present_factor: u32)
    requires
        g.wf(),
        costs_fit_any_occupancy(g, present_factor),
    ensures
        g.costs_fit(present_factor),
{
    assert forall|k: int| 0 <= k < g.num_cells() && !g.is_perm(k) implies #[trigger] g.raw_cost(k, present_factor) <= u32::MAX by {
        let o = g.occupancy@[k] as u32;
        assert(present_factor as int * o as int <= present_factor as int * 255) by (nonlinear_arith)
            requires
                o <= 255,
        ;
        assert(g.history@[k] == g.history@[k]);
    }
}

/// Pad coordinates small enough for squared distances in `i64`.
pub open spec fn pads_small(pads: Seq<(usize, usize)>) -> bool {
    forall|i: int| 0 <= i < pads.len() ==> (#[trigger] pads[i]).0 <= 0x7fff_ffff && pads[i].1 <= 0x7fff_ffff
}

pub open spec fn pads_in_grid(g: &GridMap, pads: Seq<(usize, usize)>) -> bool {
    forall|i: int| 0 <= i < pads.len() ==> (#[trigger] pads[i]).0 < g.width && pads[i].1 < g.height
}

/// Squared distance between two positions.
pub open spec fn dist2(a: (usize, usize), b: (usize, usize)) -> int {
    (a.0 - b.0) * (a.0 - b.0) + (a.1 - b.1) * (a.1 - b.1)
}

fn dist2_exec(a: (usize, usize), b: (usize, usize)) -> (r: i64)
    requires
        a.0 <= 0x7fff_ffff && a.1 <= 0x7fff_ffff,
        b.0 <= 0x7fff_ffff && b.1 <= 0x7fff_ffff,
    ensures
        r == dist2(a, b),
{
    let dx: i64 = a.0 as i64 - b.0 as i64;
    let dy: i64 = a.1 as i64 - b.1 as i64;
    assert(dx * dx <= 0x7fff_ffff * 0x7fff_ffff) by (nonlinear_arith)
        requires
            -0x7fff_ffff <= dx <= 0x7fff_ffff,
    ;
    assert(dy * dy <= 0x7fff_ffff * 0x7fff_ffff) by (nonlinear_arith)
        requires
            -0x7fff_ffff <= dy <= 0x7fff_ffff,
    ;
    assert(0 <= dx * dx) by (nonlinear_arith);
    assert(0 <= dy * dy) by (nonlinear_arith);
    dx * dx + dy * dy
}

/// Squared distance from `t` to the nearest of `tree`.
pub open spec fn dist_to_tree(tree: Seq<(usize, usize)>, t: (usize, usize)) -> int
    decreases tree.len(),
{
    if tree.len() == 0 {
        i64::MAX as int
    } else {
        let rest = dist_to_tree(tree.drop_last(), t);
        let here = dist2(t, tree.last());
        if here < rest { here } else { rest }
    }
}

fn dist_to_tree_exec(tree: &Vec<(usize, usize)>, t: (usize, usize)) -> (r: i64)
    requires
        pads_small(tree@),
        t.0 <= 0x7fff_ffff && t.1 <= 0x7fff_ffff,
    ensures
        r == dist_to_tree(tree@, t),
{
    let mut best: i64 = i64::MAX;
    let mut i: usize = 0;
    while i < tree.len()
        invariant
            i <= tree@.len(),
            pads_small(tree@),
            t.0 <= 0x7fff_ffff && t.1 <= 0x7fff_ffff,
            best == dist_to_tree(tree@.take(i as int), t),
        decreases tree@.len() - i,
    {
        assert(tree@.take(i + 1).drop_last() =~= tree@.take(i as int));
        let d = dist2_exec(t, tree[i]);
        if d < best {
            best = d;
        }
        i = i + 1;
    }
    assert(tree@.take(tree@.len() as int) =~= tree@);
    best
}

/// Position in `remaining` of the pad nearest to the tree (the first such when
/// several are equally near).
pub open spec fn is_nearest(
    pads: Seq<(usize, usize)>,
    remaining: Seq<usize>,
    tree: Seq<(usize, usize)>,
    pos: int,
) -> bool {
    &&& 0 <= pos < remaining.len()
    &&& forall|q: int|
        0 <= q < remaining.len() ==> dist_to_tree(tree, pads[remaining[pos] as int]) <= dist_to_tree(
            tree,
            pads[#[trigger] remaining[q] as int],
        )
    &&& forall|q: int|
        0 <= q < pos ==> dist_to_tree(tree, pads[remaining[pos] as int]) < dist_to_tree(
            tree,
            pads[#[trigger] remaining[q] as int],
        )
}

/// The pads joined by the first `j` connections made in pad order `order`:
/// the first pad, then the pads reached in turn.
pub open spec fn tree_of(pads: Seq<(usize, usize)>, order: Seq<int>, j: int) -> Seq<(usize, usize)> {
    seq![pads[0]] + order.take(j).map_values(|o: int| pads[o])
}

/// Connection `j` goes to a pad nearest to the pads joined so far (by squared
/// distance), the lowest-numbered one among equally near pads.
pub open spec fn greedy_step(pads: Seq<(usize, usize)>, order: Seq<int>, j: int) -> bool {
    forall|k: int|
        1 <= k < pads.len() && !order.take(j).contains(k) ==> {
            let d = dist_to_tree(tree_of(pads, order, j), pads[order[j]]);
            &&& d <= dist_to_tree(tree_of(pads, order, j), #[trigger] pads[k])
            &&& (k < order[j] ==> d < dist_to_tree(tree_of(pads, order, j), pads[k]))
        }
}

/// Pads are joined nearest first.
pub open spec fn nearest_first(pads: Seq<(usize, usize)>, order: Seq<int>) -> bool {
    forall|j: int| 0 <= j < order.len() ==> #[trigger] greedy_step(pads, order, j)
}

pub open spec fn ascending(s: Seq<usize>) -> bool {
    forall|a: int, b: int| 0 <= a < b < s.len() ==> s[a] < s[b]
}

proof fn lemma_greedy_push(pads: Seq<(usize, usize)>, order: Seq<int>, rem: Seq<usize>, tree: Seq<(usize, usize)>, pos: int)
    requires
        pads.len() <= usize::MAX,
        tree == tree_of(pads, order, order.len() as int),
        is_nearest(pads, rem, tree, pos),
        ascending(rem),
        forall|q: int| 0 <= q < rem.len() ==> 1 <= #[trigger] rem[q] < pads.len(),
        forall|k: int| 1 <= k < pads.len() ==> rem.contains(k as usize) != order.contains(k),
        nearest_first(pads, order),
    ensures
        nearest_first(pads, order.push(rem[pos] as int)),
        tree.push(pads[rem[pos] as int]) == tree_of(pads, order.push(rem[pos] as int), order.len() + 1 as int),
{
    let ri = rem[pos] as int;
    let o2 = order.push(ri);
    assert(o2.take(order.len() as int) =~= order);
    assert(order.take(order.len() as int) =~= order);
    assert(o2.take(order.len() + 1 as int) =~= o2);
    assert(tree.push(pads[ri]) =~= tree_of(pads, o2, order.len() + 1 as int));
    assert forall|j: int| 0 <= j < o2.len() implies #[trigger] greedy_step(pads, o2, j) by {
        if j < order.len() {
            assert(o2.take(j) =~= order.take(j));
            assert(o2[j] == order[j]);
            assert(greedy_step(pads, order, j));
        } else {
            assert(tree_of(pads, o2, j) =~= tree);
            assert forall|k: int| 1 <= k < pads.len() && !o2.take(j).contains(k) implies {
                let d = dist_to_tree(tree_of(pads, o2, j), pads[o2[j]]);
                &&& d <= dist_to_tree(tree_of(pads, o2, j), #[trigger] pads[k])
                &&& (k < o2[j] ==> d < dist_to_tree(tree_of(pads, o2, j), pads[k]))
            } by {
                assert(!order.contains(k));
                assert(rem.contains(k as usize));
                let q = choose|q: int| 0 <= q < rem.len() && rem[q] == k as usize;
                assert(rem[q] == k);
                if k < ri {
                    if q >= pos {
                        if q > pos {
                            assert(rem[pos] < rem[q]);
                        }
                    }
                }
            }
        }
    }
}

fn nearest_remaining(pads: &[(usize, usize)], remaining: &Vec<usize>, tree: &Vec<(usize, usize)>) -> (r: usize)
    requires
        remaining@.len() > 0,
        forall|q: int| 0 <= q < remaining@.len() ==> #[trigger] remaining@[q] < pads@.len(),
        pads_small(pads@),
        pads_small(tree@),
    ensures
        is_nearest(pads@, remaining@, tree@, r as int),
{
    let mut best_pos: usize = 0;
    let p0 = pads[remaining[0]];
    let mut best = dist_to_tree_exec(tree, p0);
    let mut q: usize = 1;
    while q < remaining.len()
        invariant
            1 <= q <= remaining@.len(),
            best_pos < q,
            forall|m: int| 0 <= m < remaining@.len() ==> #[trigger] remaining@[m] < pads@.len(),
            pads_small(pads@),
            pads_small(tree@),
            best == dist_to_tree(tree@, pads@[remaining@[best_pos as int] as int]),
            forall|m: int| 0 <= m < q ==> best <= dist_to_tree(tree@, pads@[#[trigger] remaining@[m] as int]),
            forall|m: int| 0 <= m < best_pos ==> best < dist_to_tree(tree@, pads@[#[trigger] remaining@[m] as int]),
        decreases remaining@.len() - q,
    {
        let pq = pads[remaining[q]];
        let d = dist_to_tree_exec(tree, pq);
        if d < best {
            best = d;
            best_pos = q;
        }
        q = q + 1;
    }
    best_pos
}


/// The occupancy once `expose_pads` has cleared the cells at `pad` on every layer.
pub open spec fn exposed(g: &GridMap, occ: Seq<u8>, pad: (usize, usize)) -> Seq<u8> {
    Seq::new(
        occ.len(),
        |k: int| if !g.is_perm(k) && g.cell_x(k) == pad.0 && g.cell_y(k) == pad.1 { 0u8 } else { occ[k] },
    )
}

/// The occupancy once connection `p` is committed: its cells, and its via
/// positions on every layer, claimed with their halos.
pub open spec fn after_commit(g: &GridMap, occ: Seq<u8>, p: Seq<State>, radius: int) -> Seq<u8> {
    mark_all(g, occ, p + via_layers(vias_of(p), g.num_layers as nat), radius)
}

/// The cells of a pad on every layer.
pub open spec fn pad_layers(pad: (usize, usize), n: nat) -> Seq<State> {
    Seq::new(n, |l: int| (pad.0, pad.1, l as usize))
}

/// `grids[j]` is the grid that connection `j` was searched on: `g` with the
/// earlier connections committed and the target pad's cells cleared.
pub open spec fn search_grids(
    g: &GridMap,
    pads: Seq<(usize, usize)>,
    paths: Seq<Seq<State>>,
    order: Seq<int>,
    grids: Seq<GridMap>,
    radius: int,
) -> bool {
    &&& grids.len() == paths.len()
    &&& forall|j: int| 0 <= j < grids.len() ==> same_except_occupancy(g, &#[trigger] grids[j])
    &&& forall|j: int|
        0 <= j < grids.len() ==> (#[trigger] grids[j]).occupancy@ == exposed(
            g,
            if j == 0 {
                g.occupancy@
            } else {
                after_commit(&grids[j - 1], grids[j - 1].occupancy@, paths[j - 1], radius)
            },
            pads[order[j]],
        )
}

/// Connection `j` costs no more than any other walk on its grid from the tree
/// grown before it to its target pad.
pub open spec fn cheapest_connection(
    g: &GridMap,
    pads: Seq<(usize, usize)>,
    paths: Seq<Seq<State>>,
    order: Seq<int>,
    j: int,
    present_factor: u32,
    via_cost: u32,
) -> bool {
    forall|q: Seq<State>|
        q.len() >= 1 && in_tree(pads, paths.take(j), order.take(j), g.num_layers as nat, j, q[0]) && is_grid_walk(
            g,
            q,
            present_factor,
            via_cost,
        ) && pos(q.last()) == pads[order[j]] ==> route_cost(g, paths[j], present_factor, via_cost)
            <= #[trigger] route_cost(g, q, present_factor, via_cost)
}

/// Each connection was searched on its grid of `grids` (see
/// [`search_grids`]) and is a cheapest connection there.
#[verifier::opaque]
pub open spec fn cheapest_connections(
    g: &GridMap,
    pads: Seq<(usize, usize)>,
    paths: Seq<Seq<State>>,
    order: Seq<int>,
    grids: Seq<GridMap>,
    radius: int,
    present_factor: u32,
    via_cost: u32,
) -> bool {
    &&& search_grids(g, pads, paths, order, grids, radius)
    &&& forall|j: int|
        0 <= j < paths.len() ==> #[trigger] cheapest_connection(&grids[j], pads, paths, order, j, present_factor, via_cost)
}

/// The occupancy that routing the connections leaves: each connection
/// committed on its grid, then the first pad claimed on every layer.
pub open spec fn final_occupancy(
    pads: Seq<(usize, usize)>,
    paths: Seq<Seq<State>>,
    grids: Seq<GridMap>,
    radius: int,
) -> Seq<u8> {
    let gl = grids.last();
    mark_all(
        &gl,
        after_commit(&gl, gl.occupancy@, paths.last(), radius),
        pad_layers(pads[0], gl.num_layers as nat),
        radius,
    )
}

/// What the connections made so far satisfy: the grids they were searched on,
/// each a cheapest connection, the occupancy they leave, and the search's
/// sources covering the tree grown so far.
#[verifier::opaque]
spec fn steiner_progress(
    g0: &GridMap,
    pads: Seq<(usize, usize)>,
    paths: Seq<Seq<State>>,
    order: Seq<int>,
    grids: Seq<GridMap>,
    radius: int,
    present_factor: u32,
    via_cost: u32,
    occ: Seq<u8>,
    sources: Seq<State>,
) -> bool {
    &&& search_grids(g0, pads, paths, order, grids, radius)
    &&& forall|j: int|
        0 <= j < paths.len() ==> #[trigger] cheapest_connection(&grids[j], pads, paths, order, j, present_factor, via_cost)
    &&& occ == if paths.len() == 0 {
        g0.occupancy@
    } else {
        after_commit(&grids.last(), grids.last().occupancy@, paths.last(), radius)
    }
    &&& forall|c: State| #[trigger] in_tree(pads, paths, order, g0.num_layers as nat, paths.len() as int, c) ==> sources.contains(c)
}

/// The occupancy that `expose_pads` leaves for one pad.
proof fn lemma_exposed(g0: &GridMap, gp: &GridMap, ga: &GridMap, pad: (usize, usize), one: Seq<(usize, usize)>)
    requires
        same_except_occupancy(g0, gp),
        ga.wf(),
        ga.width == gp.width,
        ga.height == gp.height,
        ga.num_layers == gp.num_layers,
        one == seq![pad],
        forall|k: int|
            0 <= k < ga.num_cells() ==> ga.occupancy@[k] == if !gp.is_perm(k) && pad_among(one, one.len() as int, gp.cell_x(k), gp.cell_y(k)) {
                0
            } else {
                gp.occupancy@[k]
            },
    ensures
        ga.occupancy@ == exposed(g0, gp.occupancy@, pad),
{
    assert(one[0] == pad);
    assert(one.len() == 1);
    assert(ga.num_cells() == gp.num_cells());
    assert forall|k: int| 0 <= k < ga.occupancy@.len() implies ga.occupancy@[k] == exposed(g0, gp.occupancy@, pad)[k] by {
        assert(g0.is_perm(k) == gp.is_perm(k));
        assert(g0.cell_x(k) == gp.cell_x(k) && g0.cell_y(k) == gp.cell_y(k));
        if gp.cell_x(k) == pad.0 && gp.cell_y(k) == pad.1 {
            assert(one[0].0 == gp.cell_x(k) && one[0].1 == gp.cell_y(k));
            assert(pad_among(one, one.len() as int, gp.cell_x(k), gp.cell_y(k)));
        } else {
            if pad_among(one, one.len() as int, gp.cell_x(k), gp.cell_y(k)) {
                let q = choose|q: int| 0 <= q < one.len() as int && #[trigger] one[q].0 == gp.cell_x(k) && one[q].1 == gp.cell_y(k);
                assert(q == 0);
            }
        }
    }
    assert(ga.occupancy@ =~= exposed(g0, gp.occupancy@, pad));
}

/// What the finished connections satisfy.
proof fn lemma_progress_done(
    g0: &GridMap,
    pads: Seq<(usize, usize)>,
    paths: Seq<Seq<State>>,
    order: Seq<int>,
    grids: Seq<GridMap>,
    radius: int,
    present_factor: u32,
    via_cost: u32,
    occ: Seq<u8>,
    sources: Seq<State>,
)
    requires
        steiner_progress(g0, pads, paths, order, grids, radius, present_factor, via_cost, occ, sources),
        paths.len() > 0,
    ensures
        search_grids(g0, pads, paths, order, grids, radius),
        forall|j: int|
            0 <= j < paths.len() ==> #[trigger] cheapest_connection(&grids[j], pads, paths, order, j, present_factor, via_cost),
        occ == after_commit(&grids.last(), grids.last().occupancy@, paths.last(), radius),
        same_except_occupancy(g0, &grids.last()),
{
    reveal(steiner_progress);
    assert(grids[grids.len() - 1] == grids.last());
}

/// One more connection keeps what the connections made so far satisfy.
proof fn lemma_progress_step(
    g0: &GridMap,
    pads: Seq<(usize, usize)>,
    paths0: Seq<Seq<State>>,
    order0: Seq<int>,
    grids0: Seq<GridMap>,
    radius: int,
    present_factor: u32,
    via_cost: u32,
    occ_prev: Seq<u8>,
    src: Seq<State>,
    p: Seq<State>,
    ri: int,
    gb: GridMap,
    occ_new: Seq<u8>,
    sources: Seq<State>,
)
    requires
        steiner_progress(g0, pads, paths0, order0, grids0, radius, present_factor, via_cost, occ_prev, src),
        same_except_occupancy(g0, &gb),
        pads.len() > 0,
        0 <= ri < pads.len(),
        order0.len() == paths0.len(),
        gb.occupancy@ == exposed(g0, occ_prev, pads[ri]),
        forall|q: Seq<State>|
            is_route(&gb, src, seq![pads[ri]], q, present_factor, via_cost) ==> route_cost(&gb, p, present_factor, via_cost)
                <= #[trigger] route_cost(&gb, q, present_factor, via_cost),
        occ_new == after_commit(&gb, gb.occupancy@, p, radius),
        forall|c: State| src.contains(c) ==> sources.contains(c),
        forall|kk: int| 0 <= kk < p.len() ==> sources.contains(#[trigger] p[kk]),
        forall|m: usize| m < g0.num_layers ==> #[trigger] sources.contains((pads[0].0, pads[0].1, m)),
        forall|m: usize| m < g0.num_layers ==> #[trigger] sources.contains((pads[ri].0, pads[ri].1, m)),
    ensures
        steiner_progress(g0, pads, paths0.push(p), order0.push(ri), grids0.push(gb), radius, present_factor, via_cost, occ_new, sources),
{
    reveal(steiner_progress);
    let nl = g0.num_layers as nat;
    lemma_new_connection(&gb, pads, paths0, order0, p, ri, src, seq![pads[ri]], nl, present_factor, via_cost);
    lemma_grow_grids(g0, pads, paths0, order0, grids0, p, ri, gb, radius, present_factor, via_cost);
    lemma_tree_in_sources(pads, paths0, order0, p, ri, nl, src, sources);
    let grids = grids0.push(gb);
    let paths = paths0.push(p);
    assert(grids.last() == gb);
    assert(paths.last() == p);
}

/// A connection that the search found cheapest from the tree's cells is a
/// cheapest connection.
proof fn lemma_new_connection(
    gb: &GridMap,
    pads: Seq<(usize, usize)>,
    paths: Seq<Seq<State>>,
    order: Seq<int>,
    p: Seq<State>,
    ri: int,
    src: Seq<State>,
    one: Seq<(usize, usize)>,
    nl: nat,
    present_factor: u32,
    via_cost: u32,
)
    requires
        gb.num_layers == nl,
        0 <= ri < pads.len(),
        order.len() == paths.len(),
        one == seq![pads[ri]],
        forall|c: State| #[trigger] in_tree(pads, paths, order, nl, paths.len() as int, c) ==> src.contains(c),
        forall|q: Seq<State>|
            is_route(gb, src, one, q, present_factor, via_cost) ==> route_cost(gb, p, present_factor, via_cost)
                <= #[trigger] route_cost(gb, q, present_factor, via_cost),
    ensures
        cheapest_connection(gb, pads, paths.push(p), order.push(ri), paths.len() as int, present_factor, via_cost),
{
    let j = paths.len() as int;
    let np = paths.push(p);
    let no = order.push(ri);
    assert(np.take(j) =~= paths);
    assert(no.take(j) =~= order);
    assert(np[j] == p);
    assert(no[j] == ri);
    assert forall|q: Seq<State>|
        q.len() >= 1 && in_tree(pads, np.take(j), no.take(j), gb.num_layers as nat, j, q[0])
            && is_grid_walk(gb, q, present_factor, via_cost) && pos(q.last()) == pads[no[j]]
        implies route_cost(gb, np[j], present_factor, via_cost) <= #[trigger] route_cost(gb, q, present_factor, via_cost) by {
        assert(in_tree(pads, paths, order, nl, paths.len() as int, q[0]));
        assert(src.contains(q[0]));
        assert(one[0] == (q.last().0, q.last().1));
        assert(one.contains((q.last().0, q.last().1)));
        assert(is_route(gb, src, one, q, present_factor, via_cost));
    }
}

/// Adding a connection's grid keeps the grids and the cheapest connections
/// found so far.
proof fn lemma_grow_grids(
    g0: &GridMap,
    pads: Seq<(usize, usize)>,
    paths0: Seq<Seq<State>>,
    order0: Seq<int>,
    grids0: Seq<GridMap>,
    p: Seq<State>,
    ri: int,
    gb: GridMap,
    radius: int,
    present_factor: u32,
    via_cost: u32,
)
    requires
        search_grids(g0, pads, paths0, order0, grids0, radius),
        forall|j: int|
            0 <= j < paths0.len() ==> #[trigger] cheapest_connection(&grids0[j], pads, paths0, order0, j, present_factor, via_cost),
        cheapest_connection(&gb, pads, paths0.push(p), order0.push(ri), paths0.len() as int, present_factor, via_cost),
        same_except_occupancy(g0, &gb),
        gb.occupancy@ == exposed(
            g0,
            if paths0.len() == 0 {
                g0.occupancy@
            } else {
                after_commit(&grids0.last(), grids0.last().occupancy@, paths0.last(), radius)
            },
            pads[ri],
        ),
        order0.len() == paths0.len(),
    ensures
        search_grids(g0, pads, paths0.push(p), order0.push(ri), grids0.push(gb), radius),
        forall|j: int|
            0 <= j < paths0.len() + 1 ==> #[trigger] cheapest_connection(
                &grids0.push(gb)[j],
                pads,
                paths0.push(p),
                order0.push(ri),
                j,
                present_factor,
                via_cost,
            ),
{
    let grids = grids0.push(gb);
    let paths = paths0.push(p);
    let order = order0.push(ri);
    assert forall|j: int| 0 <= j < grids.len() implies same_except_occupancy(g0, &#[trigger] grids[j]) by {
        if j < grids0.len() {
            assert(grids[j] == grids0[j]);
        }
    }
    assert forall|j: int| 0 <= j < grids.len() implies (#[trigger] grids[j]).occupancy@ == exposed(
        g0,
        if j == 0 {
            g0.occupancy@
        } else {
            after_commit(&grids[j - 1], grids[j - 1].occupancy@, paths[j - 1], radius)
        },
        pads[order[j]],
    ) by {
        if j < grids0.len() {
            assert(grids[j] == grids0[j]);
            if j > 0 {
                assert(grids[j - 1] == grids0[j - 1]);
                assert(paths[j - 1] == paths0[j - 1]);
            }
            assert(order[j] == order0[j]);
        } else {
            assert(grids[j] == gb);
            assert(order[j] == ri);
            if j > 0 {
                assert(grids[j - 1] == grids0.last());
                assert(paths[j - 1] == paths0.last());
            }
        }
    }
    assert forall|j: int| 0 <= j < paths.len() implies #[trigger] cheapest_connection(
        &grids[j],
        pads,
        paths,
        order,
        j,
        present_factor,
        via_cost,
    ) by {
        if j < paths0.len() {
            assert(grids[j] == grids0[j]);
            assert(paths.take(j) =~= paths0.take(j));
            assert(order.take(j) =~= order0.take(j));
            assert(paths[j] == paths0[j]);
            assert(order[j] == order0[j]);
            assert(cheapest_connection(&grids0[j], pads, paths0, order0, j, present_factor, via_cost));
        } else {
            assert(grids[j] == gb);
        }
    }
}

/// The tree grown by a connection lies among the search's sources.
proof fn lemma_tree_in_sources(
    pads: Seq<(usize, usize)>,
    paths0: Seq<Seq<State>>,
    order0: Seq<int>,
    p: Seq<State>,
    ri: int,
    nl: nat,
    src: Seq<State>,
    sources: Seq<State>,
)
    requires
        pads.len() > 0,
        0 <= ri < pads.len(),
        order0.len() == paths0.len(),
        forall|c: State| #[trigger] in_tree(pads, paths0, order0, nl, paths0.len() as int, c) ==> src.contains(c),
        forall|c: State| src.contains(c) ==> sources.contains(c),
        forall|kk: int| 0 <= kk < p.len() ==> sources.contains(#[trigger] p[kk]),
        forall|m: usize| m < nl ==> #[trigger] sources.contains((pads[0].0, pads[0].1, m)),
        forall|m: usize| m < nl ==> #[trigger] sources.contains((pads[ri].0, pads[ri].1, m)),
    ensures
        forall|c: State|
            #[trigger] in_tree(pads, paths0.push(p), order0.push(ri), nl, (paths0.len() + 1) as int, c) ==> sources.contains(c),
{
    let paths = paths0.push(p);
    let order = order0.push(ri);
    assert forall|c: State| #[trigger] in_tree(pads, paths0.push(p), order0.push(ri), nl, (paths0.len() + 1) as int, c) implies sources.contains(c) by {
        if pos(c) == pads[0] && c.2 < nl {
            assert(c == (pads[0].0, pads[0].1, c.2));
        } else if exists|m: int| 0 <= m < paths.len() && (#[trigger] paths[m]).contains(c) {
            let m = choose|m: int| 0 <= m < paths.len() && (#[trigger] paths[m]).contains(c);
            if m < paths0.len() {
                assert(paths[m] == paths0[m]);
                assert(in_tree(pads, paths0, order0, nl, paths0.len() as int, c));
            } else {
                assert(paths[m] == p);
                let kk = choose|kk: int| 0 <= kk < p.len() && p[kk] == c;
                assert(sources.contains(p[kk]));
            }
        } else {
            let m = choose|m: int| 0 <= m < paths.len() && pos(c) == pads[#[trigger] order[m]] && c.2 < nl;
            if m < paths0.len() {
                assert(order[m] == order0[m]);
                assert(in_tree(pads, paths0, order0, nl, paths0.len() as int, c));
            } else {
                assert(order[m] == ri);
                assert(c == (pads[ri].0, pads[ri].1, c.2));
            }
        }
    }
}

/// What routing the pads `pads` on grid `g` found: connections that join
/// every pad to the first, the unconnected pad nearest to the tree first, each
/// a cheapest connection on the grid it was searched on (under the present
/// factor and via cost given); their wires and vias; and the occupancy
/// `occ` that they and the first pad leave.
pub open spec fn steiner_found(
    g: &GridMap,
    pads: Seq<(usize, usize)>,
    radius: int,
    present_factor: u32,
    via_cost: u32,
    wires: Seq<GridWire>,
    vias: Seq<(usize, usize)>,
    occ: Seq<u8>,
) -> bool {
    exists|paths: Seq<Seq<State>>, order: Seq<int>, grids: Seq<GridMap>|
        #![trigger connects_all(g, pads, paths, order), cheapest_connections(g, pads, paths, order, grids, radius, present_factor, via_cost)]
        {
            &&& connects_all(g, pads, paths, order)
            &&& wires_of_paths(wires, paths, g.layer_names@)
            &&& vias == all_vias(paths)
            &&& wires.len() > 0
            &&& nearest_first(pads, order)
            &&& cheapest_connections(g, pads, paths, order, grids, radius, present_factor, via_cost)
            &&& occ == final_occupancy(pads, paths, grids, radius)
        }
}

/// The last layer run of a path ends with the path's last cell.
proof fn lemma_runs_last(p: Seq<State>)
    requires
        p.len() > 0,
    ensures
        layer_runs(p).len() > 0,
        layer_runs(p).last().len() > 0,
        layer_runs(p).last().last() == p.last(),
    decreases p.len(),
{
    let q = p.drop_last();
    if q.len() > 0 {
        lemma_runs_last(q);
    } else {
        assert(layer_runs(q) =~= Seq::<Seq<State>>::empty());
    }
}

/// Some run has at least two cells.
spec fn has_long_run(runs: Seq<Seq<State>>) -> bool {
    exists|k: int| 0 <= k < runs.len() && (#[trigger] runs[k]).len() >= 2
}

proof fn lemma_long_run_wire(runs: Seq<Seq<State>>)
    requires
        has_long_run(runs),
    ensures
        wire_runs(runs).len() > 0,
    decreases runs.len(),
{
    let k = choose|k: int| 0 <= k < runs.len() && (#[trigger] runs[k]).len() >= 2;
    if k < runs.len() - 1 {
        assert(runs.drop_last()[k] == runs[k]);
        lemma_long_run_wire(runs.drop_last());
    }
}

/// Two consecutive cells on one layer fall into one run.
proof fn lemma_runs_long(p: Seq<State>, i: int)
    requires
        0 <= i < p.len() - 1,
        p[i].2 == p[i + 1].2,
    ensures
        has_long_run(layer_runs(p)),
    decreases p.len(),
{
    let q = p.drop_last();
    lemma_runs_last(q);
    let r = layer_runs(q);
    let n = layer_runs(p);
    if i + 1 < p.len() - 1 {
        assert(q[i] == p[i] && q[i + 1] == p[i + 1]);
        lemma_runs_long(q, i);
        let k = choose|k: int| 0 <= k < r.len() && (#[trigger] r[k]).len() >= 2;
        if r.last().last().2 == p.last().2 {
            assert(n == r.drop_last().push(r.last().push(p.last())));
            if k < r.len() - 1 {
                assert(n[k] == r[k]);
            } else {
                assert(n[k].len() >= 2);
            }
        } else {
            assert(n == r.push(seq![p.last()]));
            assert(n[k] == r[k]);
        }
    } else {
        assert(q.last() == p[i]);
        assert(n == r.drop_last().push(r.last().push(p.last())));
        assert(n[n.len() - 1].len() >= 2);
    }
}

/// A track that ends at another position than it starts has a step on one layer.
proof fn lemma_track_flat_step(g: &GridMap, p: Seq<State>)
    requires
        is_track(g, p),
        pos(p[0]) != pos(p.last()),
    ensures
        has_long_run(layer_runs(p)),
    decreases p.len(),
{
    let n = p.len();
    assert(track_step(g, p, n - 2));
    if pos(p[n - 2]) != pos(p[n - 1]) {
        lemma_runs_long(p, n - 2);
    } else {
        let q = p.drop_last();
        assert forall|i: int| 0 <= i < q.len() - 1 implies #[trigger] track_step(g, q, i) by {
            assert(track_step(g, p, i));
        }
        lemma_track_flat_step(g, q);
        let r = layer_runs(q);
        let k = choose|k: int| 0 <= k < r.len() && (#[trigger] r[k]).len() >= 2;
        lemma_runs_last(q);
        let m = layer_runs(p);
        if r.last().last().2 == p.last().2 {
            assert(m == r.drop_last().push(r.last().push(p.last())));
            if k < r.len() - 1 {
                assert(m[k] == r[k]);
            } else {
                assert(m[k].len() >= 2);
            }
        } else {
            assert(m == r.push(seq![p.last()]));
            assert(m[k] == r[k]);
        }
    }
}

proof fn lemma_all_wire_runs_has(paths: Seq<Seq<State>>, j: int)
    requires
        0 <= j < paths.len(),
        wire_runs(layer_runs(paths[j])).len() > 0,
    ensures
        all_wire_runs(paths).len() > 0,
    decreases paths.len(),
{
    if j < paths.len() - 1 {
        assert(paths.drop_last()[j] == paths[j]);
        lemma_all_wire_runs_has(paths.drop_last(), j);
    }
}

/// When no other pad sits on the first pad's position, the connections give a wire:
/// the first one leaves the first pad's position.
pub proof fn lemma_distinct_pads_give_wires(g: &GridMap, pads: Seq<(usize, usize)>, paths: Seq<Seq<State>>, order: Seq<int>)
    requires
        connects_all(g, pads, paths, order),
        forall|k: int| 1 <= k < pads.len() ==> #[trigger] pads[k] != pads[0],
    ensures
        all_wire_runs(paths).len() > 0,
{
    let p = paths[0];
    assert(is_track(g, p) && in_tree(pads, paths, order, g.num_layers as nat, 0, p[0]) && pos(p.last()) == pads[order[0]]);
    assert(pads[order[0]] != pads[0]);
    lemma_track_flat_step(g, p);
    lemma_long_run_wire(layer_runs(p));
    lemma_all_wire_runs_has(paths, 0);
}

proof fn lemma_all_push(paths: Seq<Seq<State>>, p: Seq<State>)
    ensures
        all_wire_runs(paths.push(p)) == all_wire_runs(paths) + wire_runs(layer_runs(p)),
        all_vias(paths.push(p)) == all_vias(paths) + vias_of(p),
{
    assert(paths.push(p).drop_last() =~= paths);
}

/// Connects all pads of one net with a growing nearest-neighbour Steiner tree:
/// starting from the first pad (on every layer), repeatedly routes the
/// unconnected pad nearest to the connected ones from the tree grown so far
/// (the pads and every cell of the paths found), making that pad reachable
/// first. Gives the wires and via positions of all connections; `None` when
/// the net has fewer than two pads, when a pad cannot be reached, or when no
/// wire results.
#[verifier::spinoff_prover]
#[verifier::rlimit(100)]
pub fn route_net_steiner(
    g: &mut GridMap,
    pad_grid: &[(usize, usize)],
    via_cost: u32,
    clearance_cells: usize,
    present_factor: u32,
) -> (r: Option<(Vec<GridWire>, Vec<(usize, usize)>)>)
    requires
        old(g).wf(),
        costs_fit_any_occupancy(&*old(g), present_factor),
        pad_grid@.len() >= 2 ==> pads_in_grid(&*old(g), pad_grid@),
        pad_grid@.len() >= 2 ==> pads_small(pad_grid@),
        halo_fits(&*old(g), clearance_cells),
        old(g).width <= i64::MAX,
        old(g).height <= i64::MAX,
    ensures
        same_except_occupancy(&*old(g), &*final(g)),
        match r {
            Some((wires, vias)) => steiner_found(
                &*old(g),
                pad_grid@,
                clearance_cells as int,
                present_factor,
                via_cost,
                wires@,
                vias@,
                final(g).occupancy@,
            ),
            None => pad_grid@.len() < 2 || (exists|k: int|
                1 <= k < pad_grid@.len() && !reachable(&*old(g), pad_grid@[0], #[trigger] pad_grid@[k], present_factor))
                || (exists|paths: Seq<Seq<State>>, order: Seq<int>|
                connects_all(&*old(g), pad_grid@, paths, order) && all_wire_runs(paths).len() == 0),
        },
        pad_grid@.len() < 2 ==> r is None && *final(g) == *old(g),
        // every pad reachable and none on the first pad's position: the net is routed
        pad_grid@.len() >= 2 && (forall|k: int|
            1 <= k < pad_grid@.len() ==> reachable(&*old(g), pad_grid@[0], #[trigger] pad_grid@[k], present_factor)
                && pad_grid@[k] != pad_grid@[0]) ==> r is Some,
{
    if pad_grid.len() < 2 {
        return None;
    }
    let ghost g0 = *old(g);
    let nl = g.num_layers;
    let first = pad_grid[0];
    let mut sources: Vec<State> = Vec::new();
    let mut l: usize = 0;
    while l < nl
        invariant
            l <= nl,
            nl == g0.num_layers,
            *g == g0,
            pad_grid@.len() >= 2,
            first == pad_grid@[0],
            pads_in_grid(&g0, pad_grid@),
            cells_in_bounds(&g0, sources@),
            forall|c: State| sources@.contains(c) ==> pos(c) == first && c.2 < nl,
            forall|m: usize| m < l ==> #[trigger] sources@.contains((first.0, first.1, m)),
        decreases nl - l,
    {
        let ghost before = sources@;
        sources.push((first.0, first.1, l));
        proof {
            lemma_push_keeps(before, (first.0, first.1, l));
            assert forall|c: State| sources@.contains(c) implies pos(c) == first && c.2 < nl by {
                let k = choose|k: int| 0 <= k < sources@.len() && sources@[k] == c;
                if k < before.len() {
                    assert(before[k] == c);
                    assert(before.contains(c));
                }
            }
        }
        l = l + 1;
    }
    let mut remaining: Vec<usize> = Vec::new();
    let mut i: usize = 1;
    while i < pad_grid.len()
        invariant
            1 <= i <= pad_grid@.len(),
            remaining@.len() == i - 1,
            forall|q: int| 0 <= q < remaining@.len() ==> #[trigger] remaining@[q] == q + 1,
        decreases pad_grid@.len() - i,
    {
        remaining.push(i);
        i = i + 1;
    }
    let mut tree_pads: Vec<(usize, usize)> = Vec::new();
    tree_pads.push(first);
    let mut all_wires: Vec<GridWire> = Vec::new();
    let mut all_vias_v: Vec<(usize, usize)> = Vec::new();
    let ghost mut paths: Seq<Seq<State>> = Seq::empty();
    let ghost mut order: Seq<int> = Seq::empty();
    let ghost mut grids: Seq<GridMap> = Seq::empty();
    proof {
        assert(steiner_progress(&g0, pad_grid@, paths, order, grids, clearance_cells as int, present_factor, via_cost, g.occupancy@, sources@)) by {
            reveal(steiner_progress);
            assert forall|c: State| #[trigger] in_tree(pad_grid@, paths, order, nl as nat, paths.len() as int, c) implies sources@.contains(c) by {
                assert(c == (first.0, first.1, c.2));
            }
        }
        assert forall|k: int| 1 <= k < pad_grid@.len() implies remaining@.contains(k as usize) != order.contains(k) by {
            assert(remaining@[k - 1] == k);
        }
        assert(all_wire_runs(paths) =~= Seq::<Seq<State>>::empty());
        assert(all_vias(paths) =~= Seq::<(usize, usize)>::empty());
        assert forall|c: State| sources@.contains(c) implies in_tree(pad_grid@, paths, order, nl as nat, paths.len() as int, c) by {
            assert(pos(c) == first && c.2 < nl);
        }
        assert(tree_pads@ =~= tree_of(pad_grid@, order, 0));
        assert forall|a: int, b: int| 0 <= a < b < remaining@.len() implies remaining@[a] < remaining@[b] by {
            assert(remaining@[a] == a + 1 && remaining@[b] == b + 1);
        }
    }
    while remaining.len() > 0
        invariant
            same_except_occupancy(&g0, &*g),
            g0 == *old(g),
            g0.wf(),
            nl == g0.num_layers,
            costs_fit_any_occupancy(&g0, present_factor),
            pads_in_grid(&g0, pad_grid@),
            pads_small(pad_grid@),
            pads_small(tree_pads@),
            halo_fits(&g0, clearance_cells),
            g0.width <= i64::MAX,
            g0.height <= i64::MAX,
            pad_grid@.len() >= 2,
            first == pad_grid@[0],
            cells_in_bounds(&g0, sources@),
            forall|c: State| sources@.contains(c) ==> in_tree(pad_grid@, paths, order, nl as nat, paths.len() as int, c),
            forall|m: usize| m < nl ==> #[trigger] sources@.contains((first.0, first.1, m)),
            forall|q: int| 0 <= q < remaining@.len() ==> 1 <= #[trigger] remaining@[q] < pad_grid@.len(),
            remaining@.no_duplicates(),
            ascending(remaining@),
            tree_pads@ == tree_of(pad_grid@, order, order.len() as int),
            nearest_first(pad_grid@, order),
            order.no_duplicates(),
            forall|j: int| 0 <= j < order.len() ==> 1 <= #[trigger] order[j] < pad_grid@.len(),
            forall|k: int| 1 <= k < pad_grid@.len() ==> remaining@.contains(k as usize) != order.contains(k),
            paths.len() == order.len(),
            forall|j: int|
                0 <= j < paths.len() ==> is_track(&g0, #[trigger] paths[j]) && in_tree(
                    pad_grid@,
                    paths,
                    order,
                    nl as nat,
                    j,
                    paths[j][0],
                ) && pos(paths[j].last()) == pad_grid@[order[j]],
            wires_of_paths(all_wires@, paths, g0.layer_names@),
            all_vias_v@ == all_vias(paths),
            steiner_progress(&g0, pad_grid@, paths, order, grids, clearance_cells as int, present_factor, via_cost, g.occupancy@, sources@),
        decreases remaining@.len(),
    {
        let next_pos = nearest_remaining(pad_grid, &remaining, &tree_pads);
        let ghost rem_before = remaining@;
        let ghost tree_before = tree_pads@;
        let n_pads = pad_grid.len();
        proof {
            assert(n_pads == pad_grid@.len());
            lemma_greedy_push(pad_grid@, order, rem_before, tree_before, next_pos as int);
        }
        let ri = remaining.remove(next_pos);
        proof {
            assert forall|a: int, b: int| 0 <= a < b < remaining@.len() implies remaining@[a] < remaining@[b] by {
                let a2 = if a < next_pos { a } else { a + 1 };
                let b2 = if b < next_pos { b } else { b + 1 };
                assert(remaining@[a] == rem_before[a2]);
                assert(remaining@[b] == rem_before[b2]);
            }
            assert(rem_before.contains(ri));
            assert(!order.contains(ri as int));
            assert forall|q: int| 0 <= q < remaining@.len() implies #[trigger] remaining@[q] != ri by {
                if q < next_pos {
                    assert(remaining@[q] == rem_before[q]);
                } else {
                    assert(remaining@[q] == rem_before[q + 1]);
                }
            }
            assert forall|k: usize| k != ri implies remaining@.contains(k) == rem_before.contains(k) by {
                if remaining@.contains(k) {
                    let q = choose|q: int| 0 <= q < remaining@.len() && remaining@[q] == k;
                    if q < next_pos {
                        assert(rem_before[q] == k);
                    } else {
                        assert(rem_before[q + 1] == k);
                    }
                }
                if rem_before.contains(k) {
                    let q = choose|q: int| 0 <= q < rem_before.len() && rem_before[q] == k;
                    if q < next_pos {
                        assert(remaining@[q] == k);
                    } else {
                        assert(q != next_pos);
                        assert(remaining@[q - 1] == k);
                    }
                }
            }
            assert(!remaining@.contains(ri));
        }
        let target = pad_grid[ri];
        let mut one: Vec<(usize, usize)> = Vec::new();
        one.push(target);
        let ghost occ_prev = g.occupancy@;
        let ghost g_prev = *g;
        g.expose_pads(one.as_slice());
        proof {
            lemma_exposed(&g0, &g_prev, &*g, target, one@);
        }
        assert(same_except_occupancy(&g0, &*g));
        proof {
            lemma_costs_fit(&*g, present_factor);
        }
        let ghost gb = *g;
        let ghost src_before = sources@;
        let result = route_net(g, &sources, &one, via_cost, present_factor, clearance_cells);
        let res = match result {
            Some(res) => res,
            None => {
                assert(*g == gb);
                assert(same_except_occupancy(&g0, &*g));
                proof {
                    lemma_unreachable(&g0, &gb, src_before, one@, first, target, present_factor, via_cost);
                }
                return None;
            },
        };
        let ghost p = res.path_cells@;
        proof {
            lemma_route_is_track(&gb, sources@, one@, p, present_factor, via_cost);
            lemma_track_same_grid(&gb, &g0, p);
            assert(one@[0] == target);
            let last = p.last();
            assert(one@.contains((last.0, last.1)));
            assert(pos(p.last()) == target);
            crate::commit::lemma_route_in_bounds(&gb, sources@, one@, p, present_factor, via_cost);
            assert(src_before.contains(p[0]));
            assert(in_tree(pad_grid@, paths, order, nl as nat, paths.len() as int, p[0]));
        }
        // Grow the source set with the new path and the pad just reached.
        let ghost new_paths = paths.push(p);
        let ghost new_order = order.push(ri as int);
        proof {
            assert forall|c: State| #[trigger] in_tree(pad_grid@, paths, order, nl as nat, paths.len() as int, c)
                implies in_tree(pad_grid@, new_paths, new_order, nl as nat, new_paths.len() as int, c) by {
                if exists|m: int| 0 <= m < paths.len() && (#[trigger] paths[m]).contains(c) {
                    let m = choose|m: int| 0 <= m < paths.len() && (#[trigger] paths[m]).contains(c);
                    assert(new_paths[m] == paths[m]);
                }
                if exists|m: int| 0 <= m < paths.len() && pos(c) == pad_grid@[#[trigger] order[m]] && c.2 < nl {
                    let m = choose|m: int| 0 <= m < paths.len() && pos(c) == pad_grid@[#[trigger] order[m]] && c.2 < nl;
                    assert(new_order[m] == order[m]);
                }
            }
        }
        let ghost paths0 = paths;
        let ghost order0 = order;
        let ghost grids0 = grids;
        proof {
            lemma_runs_last(p);
            assert(res.via_grid_cells@ == vias_of(p));
            assert(g.occupancy@ == after_commit(&gb, gb.occupancy@, p, clearance_cells as int));
        }
        let mut k: usize = 0;
        while k < res.path_cells.len()
            invariant
                forall|c: State| src_before.contains(c) ==> sources@.contains(c),
                forall|kk: int| 0 <= kk < k ==> sources@.contains(#[trigger] p[kk]),
                k <= res.path_cells@.len(),
                p == res.path_cells@,
                new_paths == paths.push(p),
                new_order == order.push(ri as int),
                cells_in_bounds(&g0, p),
                cells_in_bounds(&g0, sources@),
                forall|c: State| sources@.contains(c) ==> in_tree(pad_grid@, new_paths, new_order, nl as nat, new_paths.len() as int, c),
                forall|m: usize| m < nl ==> #[trigger] sources@.contains((first.0, first.1, m)),
            decreases res.path_cells@.len() - k,
        {
            let c = res.path_cells[k];
            let ghost before = sources@;
            sources.push(c);
            proof {
                lemma_push_keeps(before, c);
                assert forall|kk: int| 0 <= kk < k + 1 implies sources@.contains(#[trigger] p[kk]) by {
                    if kk < k {
                        assert(before.contains(p[kk]));
                    }
                }
                assert(new_paths[paths.len() as int] == p);
                assert(p[k as int] == c);
                assert(p.contains(c));
                assert forall|d: State| sources@.contains(d) implies in_tree(pad_grid@, new_paths, new_order, nl as nat, new_paths.len() as int, d) by {
                    let m = choose|m: int| 0 <= m < sources@.len() && sources@[m] == d;
                    if m < before.len() {
                        assert(before[m] == d);
                        assert(before.contains(d));
                    } else {
                        assert(d == c);
                        assert(new_paths[paths.len() as int].contains(d));
                    }
                }
                assert forall|i: int| 0 <= i < sources@.len() implies g0.in_bounds(#[trigger] sources@[i].0 as int, sources@[i].1 as int, sources@[i].2 as int) by {
                    if i < before.len() {
                        assert(sources@[i] == before[i]);
                    } else {
                        assert(sources@[i] == p[k as int]);
                    }
                }
            }
            k = k + 1;
        }
        let mut l: usize = 0;
        while l < nl
            invariant
                forall|c: State| src_before.contains(c) ==> sources@.contains(c),
                forall|kk: int| 0 <= kk < p.len() ==> sources@.contains(#[trigger] p[kk]),
                forall|m: usize| m < l ==> #[trigger] sources@.contains((target.0, target.1, m)),
                l <= nl,
                nl == g0.num_layers,
                new_order == order.push(ri as int),
                new_paths.len() == new_order.len(),
                target == pad_grid@[ri as int],
                target.0 < g0.width && target.1 < g0.height,
                cells_in_bounds(&g0, sources@),
                forall|c: State| sources@.contains(c) ==> in_tree(pad_grid@, new_paths, new_order, nl as nat, new_paths.len() as int, c),
                forall|m: usize| m < nl ==> #[trigger] sources@.contains((first.0, first.1, m)),
            decreases nl - l,
        {
            let ghost before = sources@;
            sources.push((target.0, target.1, l));
            proof {
                lemma_push_keeps(before, (target.0, target.1, l));
                assert forall|kk: int| 0 <= kk < p.len() implies sources@.contains(#[trigger] p[kk]) by {
                    assert(before.contains(p[kk]));
                }
                assert forall|m: usize| m < l + 1 implies #[trigger] sources@.contains((target.0, target.1, m)) by {
                    if m < l {
                        assert(before.contains((target.0, target.1, m)));
                    }
                }
                let c = (target.0, target.1, l);
                assert(new_order[order.len() as int] == ri as int);
                assert(pos(c) == pad_grid@[new_order[order.len() as int]]);
                assert forall|d: State| sources@.contains(d) implies in_tree(pad_grid@, new_paths, new_order, nl as nat, new_paths.len() as int, d) by {
                    let m = choose|m: int| 0 <= m < sources@.len() && sources@[m] == d;
                    if m < before.len() {
                        assert(before[m] == d);
                        assert(before.contains(d));
                    } else {
                        assert(d == c);
                    }
                }
                assert forall|i: int| 0 <= i < sources@.len() implies g0.in_bounds(#[trigger] sources@[i].0 as int, sources@[i].1 as int, sources@[i].2 as int) by {
                    if i < before.len() {
                        assert(sources@[i] == before[i]);
                    }
                }
            }
            l = l + 1;
        }
        tree_pads.push(target);
        let ghost wires_before = all_wires@;
        let mut rw = res.wires;
        all_wires.append(&mut rw);
        let mut v: usize = 0;
        while v < res.via_grid_cells.len()
            invariant
                v <= res.via_grid_cells@.len(),
                all_vias_v@ == all_vias(paths) + res.via_grid_cells@.take(v as int),
            decreases res.via_grid_cells@.len() - v,
        {
            all_vias_v.push(res.via_grid_cells[v]);
            assert(res.via_grid_cells@.take(v + 1) =~= res.via_grid_cells@.take(v as int).push(res.via_grid_cells@[v as int]));
            v = v + 1;
        }
        proof {
            assert(res.via_grid_cells@.take(res.via_grid_cells@.len() as int) =~= res.via_grid_cells@);
            lemma_all_push(paths, p);
            let old_paths = paths;
            let old_order = order;
            paths = new_paths;
            order = new_order;
            assert(all_vias_v@ =~= all_vias(paths));
            assert(all_wires@ =~= wires_before + res.wires@);
            assert forall|i: int| 0 <= i < all_wires@.len() implies wire_of_run(#[trigger] all_wires@[i], all_wire_runs(paths)[i], g0.layer_names@) by {
                if i < wires_before.len() {
                    assert(all_wire_runs(paths)[i] == all_wire_runs(old_paths)[i]);
                } else {
                    assert(all_wires@[i] == res.wires@[i - wires_before.len()]);
                }
            }
            assert forall|j: int| 0 <= j < paths.len() implies is_track(&g0, #[trigger] paths[j]) && in_tree(
                pad_grid@, paths, order, nl as nat, j, paths[j][0]) && pos(paths[j].last()) == pad_grid@[order[j]] by {
                if j < old_paths.len() {
                    let c = paths[j][0];
                    assert(paths[j] == old_paths[j]);
                    if exists|m: int| 0 <= m < j && (#[trigger] old_paths[m]).contains(c) {
                        let m = choose|m: int| 0 <= m < j && (#[trigger] old_paths[m]).contains(c);
                        assert(paths[m] == old_paths[m]);
                    }
                    if exists|m: int| 0 <= m < j && pos(c) == pad_grid@[#[trigger] old_order[m]] && c.2 < nl {
                        let m = choose|m: int| 0 <= m < j && pos(c) == pad_grid@[#[trigger] old_order[m]] && c.2 < nl;
                        assert(order[m] == old_order[m]);
                    }
                    assert(order[j] == old_order[j]);
                } else {
                    assert(paths[j] == p);
                    assert(order[j] == ri as int);
                    assert(is_track(&g0, p));
                    let c = p[0];
                    assert(in_tree(pad_grid@, old_paths, old_order, nl as nat, j, c));
                    if exists|m: int| 0 <= m < j && (#[trigger] old_paths[m]).contains(c) {
                        let m = choose|m: int| 0 <= m < j && (#[trigger] old_paths[m]).contains(c);
                        assert(paths[m] == old_paths[m]);
                    }
                    if exists|m: int| 0 <= m < j && pos(c) == pad_grid@[#[trigger] old_order[m]] && c.2 < nl {
                        let m = choose|m: int| 0 <= m < j && pos(c) == pad_grid@[#[trigger] old_order[m]] && c.2 < nl;
                        assert(order[m] == old_order[m]);
                    }
                }
            }
            assert forall|k: int| 1 <= k < pad_grid@.len() implies remaining@.contains(k as usize) != order.contains(k) by {
                if k == ri as int {
                    assert(order[order.len() - 1] == k);
                } else {
                    if old_order.contains(k) {
                        let m = choose|m: int| 0 <= m < old_order.len() && old_order[m] == k;
                        assert(order[m] == k);
                    }
                    if order.contains(k) {
                        let m = choose|m: int| 0 <= m < order.len() && order[m] == k;
                        assert(m < old_order.len());
                        assert(old_order[m] == k);
                    }
                }
            }
        }
        proof {
            grids = grids0.push(gb);
            assert(one@ =~= seq![pad_grid@[ri as int]]);
            lemma_progress_step(&g0, pad_grid@, paths0, order0, grids0, clearance_cells as int, present_factor, via_cost, occ_prev, src_before, p, ri as int, gb, g.occupancy@, sources@);
        }
    }
    proof {
        assert(paths.len() == pad_grid@.len() - 1) by {
            assert forall|k: int| 1 <= k < pad_grid@.len() implies order.contains(k) by {
                assert(!remaining@.contains(k as usize));
            }
            lemma_perm_len(order, pad_grid@.len() as int);
        }
    }
    // Claim the first pad's cells too (they were never routed to).
    proof {
        lemma_costs_fit(&*g, present_factor);
    }
    proof {
        lemma_progress_done(&g0, pad_grid@, paths, order, grids, clearance_cells as int, present_factor, via_cost, g.occupancy@, sources@);
    }
    let ghost gl = grids.last();
    let ghost occ_after = g.occupancy@;
    let ghost fl = pad_layers(first, nl as nat);
    proof {
        assert(grids[grids.len() - 1] == gl);
        assert(fl.take(0) =~= Seq::<State>::empty());
    }
    let mut l: usize = 0;
    while l < nl
        invariant
            same_except_occupancy(&g0, &gl),
            fl == pad_layers(first, nl as nat),
            g.occupancy@ == mark_all(&gl, occ_after, fl.take(l as int), clearance_cells as int),
            same_except_occupancy(&g0, &*g),
            l <= nl,
            nl == g0.num_layers,
            first.0 < g0.width && first.1 < g0.height,
            halo_fits(&g0, clearance_cells),
            g0.width <= i64::MAX,
            g0.height <= i64::MAX,
        decreases nl - l,
    {
        let ghost prev = g.occupancy@;
        let ghost gm = *g;
        g.mark_occupancy(first.0, first.1, l, clearance_cells);
        proof {
            assert(fl.take(l + 1).drop_last() =~= fl.take(l as int));
            assert(fl.take(l + 1).last() == (first.0, first.1, l));
            assert(g.occupancy@ =~= mark_seq(&gl, prev, (first.0, first.1, l), clearance_cells as int)) by {
                assert forall|k: int| 0 <= k < g.occupancy@.len() implies g.occupancy@[k] == mark_seq(&gl, prev, (first.0, first.1, l), clearance_cells as int)[k] by {
                    assert(gm.in_halo(k, first.0 as int, first.1 as int, l as int, clearance_cells as int) == gl.in_halo(k, first.0 as int, first.1 as int, l as int, clearance_cells as int));
                }
            }
        }
        l = l + 1;
    }
    proof {
        assert(fl.take(nl as int) =~= fl);
        assert(gl.num_layers == nl);
        assert(g.occupancy@ == final_occupancy(pad_grid@, paths, grids, clearance_cells as int));
        assert(cheapest_connections(&g0, pad_grid@, paths, order, grids, clearance_cells as int, present_factor, via_cost)) by {
            reveal(cheapest_connections);
        }
        assert(connects_all(&g0, pad_grid@, paths, order));
        assert(wires_of_paths(all_wires@, paths, g0.layer_names@));
        if forall|k: int| 1 <= k < pad_grid@.len() ==> #[trigger] pad_grid@[k] != pad_grid@[0] {
            lemma_distinct_pads_give_wires(&g0, pad_grid@, paths, order);
            assert(all_wires@.len() == all_wire_runs(paths).len());
        }
    }
    if all_wires.len() == 0 {
        None
    } else {
        Some((all_wires, all_vias_v))
    }
}

/// A list without repeats that holds every number of `1..n` and nothing else
/// has `n - 1` entries.
proof fn lemma_perm_len(order: Seq<int>, n: int)
    requires
        n >= 1,
        order.no_duplicates(),
        forall|j: int| 0 <= j < order.len() ==> 1 <= #[trigger] order[j] < n,
        forall|k: int| 1 <= k < n ==> order.contains(k),
    ensures
        order.len() == n - 1,
{
    let s = order.to_set();
    order.unique_seq_to_set();
    assert(s =~= Set::new(|k: int| 1 <= k < n));
    lemma_range_set_len(1, n);
}

proof fn lemma_range_set_len(lo: int, hi: int)
    requires
        lo <= hi,
    ensures
        Set::new(|k: int| lo <= k < hi).finite(),
        Set::new(|k: int| lo <= k < hi).len() == hi - lo,
    decreases hi - lo,
{
    if lo < hi {
        lemma_range_set_len(lo, hi - 1);
        assert(Set::new(|k: int| lo <= k < hi) =~= Set::new(|k: int| lo <= k < hi - 1).insert(hi - 1));
    } else {
        assert(Set::new(|k: int| lo <= k < hi) =~= Set::<int>::empty());
    }
}
} // verus!
