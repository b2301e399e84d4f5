use vstd::prelude::*;
use crate::grid::{GridMap, sat_add_u32};

verus! {

/// A grid cell: `(ix, iy, layer)`.
pub type State = (usize, usize, usize);

/// A search node: `None` is a virtual super-source joined to every real
/// source at cost 0, so that one search starts from all sources at once.
pub type PfNode = Option<State>;

/// Cost of stepping onto cell `(x, y, l)`: its PathFinder cost, half again as
/// much for a diagonal step (saturating); `None` when the cell cannot be entered.
pub open spec fn step_cost(g: &GridMap, x: int, y: int, l: int, present_factor: u32, diagonal: bool) -> Option<u32> {
    let c = g.spec_pf_cost(x, y, l, present_factor);
    if c < u32::MAX {
        Some(if diagonal { sat_add_u32(c, (c / 2) as u32) } else { c })
    } else {
        None
    }
}

/// Cost of the move from `a` to `b`, or `None` when there is no such move.
/// Moves: from the super-source to any source (cost 0); to one of the eight
/// neighbours on the same layer; to the same position on an adjacent layer
/// (a via, which costs `via_cost` more, saturating).
pub open spec fn edge_cost(
    g: &GridMap,
    sources: Seq<State>,
    a: PfNode,
    b: PfNode,
    present_factor: u32,
    via_cost: u32,
) -> Option<u32> {
    match a {
        None => match b {
            Some(s) => if sources.contains(s) { Some(0u32) } else { None },
            None => None,
        },
        Some((x, y, l)) => match b {
            None => None,
            Some((x2, y2, l2)) => {
                let dx = x2 - x;
                let dy = y2 - y;
                if l2 == l && -1 <= dx <= 1 && -1 <= dy <= 1 && !(dx == 0 && dy == 0) {
                    if x2 < g.width && y2 < g.height {
                        step_cost(g, x2 as int, y2 as int, l as int, present_factor, dx != 0 && dy != 0)
                    } else {
                        None
                    }
                } else if dx == 0 && dy == 0 && (l2 == l + 1 || l2 + 1 == l) && l2 < g.num_layers {
                    match step_cost(g, x as int, y as int, l2 as int, present_factor, false) {
                        Some(c) => Some(sat_add_u32(via_cost, c)),
                        None => None,
                    }
                } else {
                    None
                }
            },
        },
    }
}

/// Whether `p` follows moves of the search graph from node to node.
pub open spec fn is_walk(
    g: &GridMap,
    sources: Seq<State>,
    p: Seq<PfNode>,
    present_factor: u32,
    via_cost: u32,
) -> bool {
    forall|i: int|
        0 <= i < p.len() - 1 ==> #[trigger] edge_cost(g, sources, p[i], p[i + 1], present_factor, via_cost) is Some
}

/// Whether the node stands on a target position (on any layer).
pub open spec fn at_target(targets: Seq<(usize, usize)>, n: PfNode) -> bool {
    match n {
        Some((x, y, _)) => targets.contains((x, y)),
        None => false,
    }
}

/// The successors of a search node, each with the cost of the move.
pub fn successors(
    g: &GridMap,
    sources: &Vec<State>,
    node: &PfNode,
    present_factor: u32,
    via_cost: u32,
) -> (r: Vec<(PfNode, u128)>)
    requires
        g.wf(),
        g.costs_fit(present_factor),
    ensures
        forall|i: int|
            0 <= i < r@.len() ==> edge_cost(g, sources@, *node, (#[trigger] r@[i]).0, present_factor, via_cost)
                == Some(r@[i].1 as u32) && r@[i].1 <= u32::MAX,
        forall|b: PfNode|
            edge_cost(g, sources@, *node, b, present_factor, via_cost) is Some ==> exists|i: int|
                0 <= i < r@.len() && (#[trigger] r@[i]).0 == b,
{
    let mut out: Vec<(PfNode, u128)> = Vec::new();
    match node {
        None => {
            let mut i: usize = 0;
            while i < sources.len()
                invariant
                    *node is None,
                    i <= sources@.len(),
                    out@.len() == i,
                    forall|j: int| 0 <= j < i ==> (#[trigger] out@[j]) == (Some(sources@[j]), 0u128),
                decreases sources@.len() - i,
            {
                out.push((Some(sources[i]), 0u128));
                i = i + 1;
            }
            proof {
                assert forall|b: PfNode|
                    edge_cost(g, sources@, *node, b, present_factor, via_cost) is Some implies exists|i: int|
                        0 <= i < out@.len() && (#[trigger] out@[i]).0 == b by {
                    let s = b->0;
                    let j = choose|j: int| 0 <= j < sources@.len() && sources@[j] == s;
                    assert(out@[j].0 == b);
                }
                assert forall|i: int| 0 <= i < out@.len() implies edge_cost(g, sources@, *node, (#[trigger] out@[i]).0, present_factor, via_cost)
                    == Some(out@[i].1 as u32) && out@[i].1 <= u32::MAX by {
                    assert(sources@.contains(sources@[i]));
                }
            }
        },
        Some((ix, iy, layer)) => {
            let ix = *ix;
            let iy = *iy;
            let layer = *layer;
            let mut d: usize = 0;
            while d < 8
                invariant
                    *node == Some((ix, iy, layer)),
                    g.wf(),
                    g.costs_fit(present_factor),
                    0 <= d <= 8,
                    forall|i: int|
                        0 <= i < out@.len() ==> edge_cost(g, sources@, *node, (#[trigger] out@[i]).0, present_factor, via_cost)
                            == Some(out@[i].1 as u32) && out@[i].1 <= u32::MAX,
                    forall|b: PfNode|
                        edge_cost(g, sources@, *node, b, present_factor, via_cost) is Some
                            && same_layer_move_index(ix as int, iy as int, layer as int, b) < d ==> exists|i: int|
                            0 <= i < out@.len() && (#[trigger] out@[i]).0 == b,
                decreases 8 - d,
            {
                let (dx, dy) = direction(d);
                let ok_x = (dx >= 0 || ix >= 1) && (dx <= 0 || ix < g.width - 1);
                let ok_y = (dy >= 0 || iy >= 1) && (dy <= 0 || iy < g.height - 1);
                let ghost before = out@;
                if ok_x && ok_y {
                    let nx: usize = if dx < 0 { ix - 1 } else if dx > 0 { ix + 1 } else { ix };
                    let ny: usize = if dy < 0 { iy - 1 } else if dy > 0 { iy + 1 } else { iy };
                    proof {
                        g.lemma_cost_fits_at(nx as int, ny as int, layer as int, present_factor);
                    }
                    let cost = g.pf_cost(nx, ny, layer, present_factor);
                    if cost < u32::MAX {
                        let edge = if dx != 0 && dy != 0 {
                            cost.saturating_add(cost >> 1)
                        } else {
                            cost
                        };
                        proof {
                            assert(cost >> 1 == cost / 2) by (bit_vector);
                        }
                        out.push((Some((nx, ny, layer)), edge as u128));
                    }
                    proof {
                        assert forall|b: PfNode|
                            edge_cost(g, sources@, *node, b, present_factor, via_cost) is Some
                                && same_layer_move_index(ix as int, iy as int, layer as int, b) < d + 1 implies exists|i: int|
                                0 <= i < out@.len() && (#[trigger] out@[i]).0 == b by {
                            if same_layer_move_index(ix as int, iy as int, layer as int, b) == d {
                                lemma_move_index(ix as int, iy as int, layer as int, b, d as int);
                                assert(b == Some((nx, ny, layer)));
                                assert(out@[before.len() as int].0 == b);
                            } else {
                                let i = choose|i: int| 0 <= i < before.len() && (#[trigger] before[i]).0 == b;
                                assert(out@[i].0 == b);
                            }
                        }
                    }
                } else {
                    proof {
                        assert forall|b: PfNode|
                            edge_cost(g, sources@, *node, b, present_factor, via_cost) is Some
                                && same_layer_move_index(ix as int, iy as int, layer as int, b) < d + 1 implies exists|i: int|
                                0 <= i < out@.len() && (#[trigger] out@[i]).0 == b by {
                            if same_layer_move_index(ix as int, iy as int, layer as int, b) == d {
                                lemma_move_index(ix as int, iy as int, layer as int, b, d as int);
                            }
                        }
                    }
                }
                d = d + 1;
            }
            let mut t: usize = 0;
            while t < 2
                invariant
                    *node == Some((ix, iy, layer)),
                    g.wf(),
                    g.costs_fit(present_factor),
                    0 <= t <= 2,
                    forall|i: int|
                        0 <= i < out@.len() ==> edge_cost(g, sources@, *node, (#[trigger] out@[i]).0, present_factor, via_cost)
                            == Some(out@[i].1 as u32) && out@[i].1 <= u32::MAX,
                    forall|b: PfNode|
                        edge_cost(g, sources@, *node, b, present_factor, via_cost) is Some
                            && (same_layer_move_index(ix as int, iy as int, layer as int, b) < 8
                            || via_move_index(ix as int, iy as int, layer as int, b) < t) ==> exists|i: int|
                            0 <= i < out@.len() && (#[trigger] out@[i]).0 == b,
                decreases 2 - t,
            {
                let ok = if t == 0 { layer >= 1 } else { layer < g.num_layers - 1 };
                let ghost before = out@;
                if ok {
                    let l2: usize = if t == 0 { layer - 1 } else { layer + 1 };
                    proof {
                        g.lemma_cost_fits_at(ix as int, iy as int, l2 as int, present_factor);
                    }
                    let cost = g.pf_cost(ix, iy, l2, present_factor);
                    if cost < u32::MAX {
                        out.push((Some((ix, iy, l2)), via_cost.saturating_add(cost) as u128));
                    }
                    proof {
                        assert forall|b: PfNode|
                            edge_cost(g, sources@, *node, b, present_factor, via_cost) is Some
                                && (same_layer_move_index(ix as int, iy as int, layer as int, b) < 8
                                || via_move_index(ix as int, iy as int, layer as int, b) < t + 1) implies exists|i: int|
                                0 <= i < out@.len() && (#[trigger] out@[i]).0 == b by {
                            if via_move_index(ix as int, iy as int, layer as int, b) == t
                                && same_layer_move_index(ix as int, iy as int, layer as int, b) >= 8 {
                                assert(b == Some((ix, iy, l2)));
                                assert(out@[before.len() as int].0 == b);
                            } else {
                                let i = choose|i: int| 0 <= i < before.len() && (#[trigger] before[i]).0 == b;
                                assert(out@[i].0 == b);
                            }
                        }
                    }
                } else {
                    proof {
                        assert forall|b: PfNode|
                            edge_cost(g, sources@, *node, b, present_factor, via_cost) is Some
                                && (same_layer_move_index(ix as int, iy as int, layer as int, b) < 8
                                || via_move_index(ix as int, iy as int, layer as int, b) < t + 1) implies exists|i: int|
                                0 <= i < out@.len() && (#[trigger] out@[i]).0 == b by {
                            if via_move_index(ix as int, iy as int, layer as int, b) == t
                                && same_layer_move_index(ix as int, iy as int, layer as int, b) >= 8 {
                                assert(false);
                            }
                        }
                    }
                }
                t = t + 1;
            }
            proof {
                assert forall|b: PfNode|
                    edge_cost(g, sources@, *node, b, present_factor, via_cost) is Some implies exists|i: int|
                        0 <= i < out@.len() && (#[trigger] out@[i]).0 == b by {
                    assert(same_layer_move_index(ix as int, iy as int, layer as int, b) < 8
                        || via_move_index(ix as int, iy as int, layer as int, b) < 2);
                }
            }
        },
    }
    out
}

/// The eight neighbour offsets, in the order in which they are tried.
pub open spec fn spec_direction(d: int) -> (int, int) {
    if d == 0 { (-1, 0) }
    else if d == 1 { (1, 0) }
    else if d == 2 { (0, -1) }
    else if d == 3 { (0, 1) }
    else if d == 4 { (-1, -1) }
    else if d == 5 { (-1, 1) }
    else if d == 6 { (1, -1) }
    else { (1, 1) }
}

fn direction(d: usize) -> (r: (i64, i64))
    requires
        d < 8,
    ensures
        r.0 == spec_direction(d as int).0,
        r.1 == spec_direction(d as int).1,
{
    if d == 0 { (-1, 0) }
    else if d == 1 { (1, 0) }
    else if d == 2 { (0, -1) }
    else if d == 3 { (0, 1) }
    else if d == 4 { (-1, -1) }
    else if d == 5 { (-1, 1) }
    else if d == 6 { (1, -1) }
    else { (1, 1) }
}

/// The index of the neighbour offset that leads from `(x, y, l)` to `b` on the
/// same layer, or 8 when `b` is no such neighbour.
pub open spec fn same_layer_move_index(x: int, y: int, l: int, b: PfNode) -> int {
    match b {
        Some((x2, y2, l2)) => if l2 == l {
            if x2 - x == -1 && y2 - y == 0 { 0 }
            else if x2 - x == 1 && y2 - y == 0 { 1 }
            else if x2 - x == 0 && y2 - y == -1 { 2 }
            else if x2 - x == 0 && y2 - y == 1 { 3 }
            else if x2 - x == -1 && y2 - y == -1 { 4 }
            else if x2 - x == -1 && y2 - y == 1 { 5 }
            else if x2 - x == 1 && y2 - y == -1 { 6 }
            else if x2 - x == 1 && y2 - y == 1 { 7 }
            else { 8 }
        } else { 8 },
        None => 8,
    }
}

proof fn lemma_move_index(x: int, y: int, l: int, b: PfNode, d: int)
    requires
        0 <= d < 8,
        same_layer_move_index(x, y, l, b) == d,
    ensures
        b matches Some((x2, y2, l2)) && x2 == x + spec_direction(d).0 && y2 == y
            + spec_direction(d).1 && l2 == l,
{
}

/// 0 for the layer below, 1 for the layer above, 2 otherwise.
pub open spec fn via_move_index(x: int, y: int, l: int, b: PfNode) -> int {
    match b {
        Some((x2, y2, l2)) => if x2 == x && y2 == y {
            if l2 + 1 == l { 0 } else if l2 == l + 1 { 1 } else { 2 }
        } else { 2 },
        None => 2,
    }
}


/// Chebyshev distance between two grid positions, truncated to 32 bits.
pub open spec fn chebyshev(x: int, y: int, tx: int, ty: int) -> u32 {
    let d = if abs_diff(x, tx) >= abs_diff(y, ty) { abs_diff(x, tx) } else { abs_diff(y, ty) };
    (d % 0x1_0000_0000) as u32
}

pub open spec fn abs_diff(a: int, b: int) -> int {
    if a >= b { a - b } else { b - a }
}

/// The smallest Chebyshev distance from `(x, y)` to the first `n` targets (0 when `n` is 0).
pub open spec fn min_chebyshev(targets: Seq<(usize, usize)>, n: int, x: int, y: int) -> u32
    decreases n,
{
    if n <= 0 {
        0
    } else if n == 1 {
        chebyshev(x, y, targets[0].0 as int, targets[0].1 as int)
    } else {
        let rest = min_chebyshev(targets, n - 1, x, y);
        let here = chebyshev(x, y, targets[n - 1].0 as int, targets[n - 1].1 as int);
        if here < rest { here } else { rest }
    }
}

/// The search heuristic: Chebyshev distance to the nearest target, which never
/// exceeds the cost of reaching it with 8-directional moves.
pub open spec fn spec_heuristic(targets: Seq<(usize, usize)>, n: PfNode) -> u32 {
    match n {
        Some((x, y, _)) => min_chebyshev(targets, targets.len() as int, x as int, y as int),
        None => 0,
    }
}

pub fn heuristic(targets: &Vec<(usize, usize)>, node: &PfNode) -> (r: u128)
    ensures
        r == spec_heuristic(targets@, *node),
{
    match node {
        None => 0,
        Some((ix, iy, _)) => {
            let mut best: u32 = 0;
            let mut i: usize = 0;
            while i < targets.len()
                invariant
                    i <= targets@.len(),
                    best == min_chebyshev(targets@, i as int, *ix as int, *iy as int),
                decreases targets@.len() - i,
            {
                let (tx, ty) = targets[i];
                let ddx: usize = if *ix >= tx { *ix - tx } else { tx - *ix };
                let ddy: usize = if *iy >= ty { *iy - ty } else { ty - *iy };
                let d: usize = if ddx >= ddy { ddx } else { ddy };
                let here: u32 = (d as u64 % 0x1_0000_0000u64) as u32;
                if i == 0 || here < best {
                    best = here;
                }
                i = i + 1;
            }
            best as u128
        },
    }
}

pub fn is_goal(targets: &Vec<(usize, usize)>, node: &PfNode) -> (r: bool)
    ensures
        r == at_target(targets@, *node),
{
    match *node {
        None => false,
        Some(s) => {
            let (ix, iy, _l) = s;
            let mut i: usize = 0;
            while i < targets.len()
                invariant
                    *node == Some((ix, iy, _l)),
                    i <= targets@.len(),
                    forall|j: int| 0 <= j < i ==> targets@[j] != (ix, iy),
                decreases targets@.len() - i,
            {
                if targets[i].0 == ix && targets[i].1 == iy {
                    assert(targets@[i as int] == (ix, iy));
                    assert(targets@.contains((ix, iy)));
                    return true;
                }
                i = i + 1;
            }
            false
        },
    }
}

// ─── Costs and the heuristic ────────────────────────────────────────────────

/// The cost of following `p` move by move: the moves' costs added up.
pub open spec fn walk_cost(g: &GridMap, sources: Seq<State>, p: Seq<PfNode>, present_factor: u32, via_cost: u32) -> int
    decreases p.len(),
{
    if p.len() <= 1 {
        0
    } else {
        let step: int = match edge_cost(g, sources, p[0], p[1], present_factor, via_cost) {
            Some(c) => c as int,
            None => 0,
        };
        step + walk_cost(g, sources, p.drop_first(), present_factor, via_cost)
    }
}

/// The cost of a route: its moves' costs added up.
pub open spec fn route_cost(g: &GridMap, p: Seq<State>, present_factor: u32, via_cost: u32) -> int {
    walk_cost(g, Seq::empty(), p.map_values(|s: State| Some(s)), present_factor, via_cost)
}

/// The heuristic never overestimates: every walk from a node to a target costs
/// at least the heuristic's value at that node.
pub open spec fn admissible(
    g: &GridMap,
    sources: Seq<State>,
    targets: Seq<(usize, usize)>,
    present_factor: u32,
    via_cost: u32,
) -> bool {
    forall|q: Seq<PfNode>|
        q.len() >= 1 && is_walk(g, sources, q, present_factor, via_cost) && at_target(targets, q.last())
            ==> spec_heuristic(targets, q[0]) <= #[trigger] walk_cost(g, sources, q, present_factor, via_cost)
}

/// The smallest Chebyshev distance to the first `n` targets, without truncation.
spec fn exact_min(targets: Seq<(usize, usize)>, n: int, x: int, y: int) -> int
    decreases n,
{
    if n <= 0 {
        0
    } else if n == 1 {
        cheb(x, y, targets[0].0 as int, targets[0].1 as int)
    } else {
        let rest = exact_min(targets, n - 1, x, y);
        let here = cheb(x, y, targets[n - 1].0 as int, targets[n - 1].1 as int);
        if here < rest { here } else { rest }
    }
}

spec fn cheb(x: int, y: int, tx: int, ty: int) -> int {
    if abs_diff(x, tx) >= abs_diff(y, ty) { abs_diff(x, tx) } else { abs_diff(y, ty) }
}

proof fn lemma_exact_min(targets: Seq<(usize, usize)>, n: int, x: int, y: int)
    requires
        n <= targets.len(),
    ensures
        0 <= exact_min(targets, n, x, y),
        min_chebyshev(targets, n, x, y) <= exact_min(targets, n, x, y),
        (exists|k: int| 0 <= k < n && #[trigger] targets[k].0 == x && targets[k].1 == y) ==> exact_min(targets, n, x, y) == 0,
    decreases n,
{
    if n > 1 {
        lemma_exact_min(targets, n - 1, x, y);
        if exists|k: int| 0 <= k < n && #[trigger] targets[k].0 == x && targets[k].1 == y {
            let k = choose|k: int| 0 <= k < n && #[trigger] targets[k].0 == x && targets[k].1 == y;
            if k < n - 1 {
                assert(targets[k].0 == x && targets[k].1 == y);
            }
        }
    }
    if n >= 1 {
        let d = cheb(x, y, targets[n - 1].0 as int, targets[n - 1].1 as int);
        assert(d % 0x1_0000_0000 <= d);
    }
}

proof fn lemma_exact_min_step(targets: Seq<(usize, usize)>, n: int, ax: int, ay: int, bx: int, by: int)
    requires
        n <= targets.len(),
        -1 <= ax - bx <= 1,
        -1 <= ay - by <= 1,
    ensures
        exact_min(targets, n, ax, ay) <= exact_min(targets, n, bx, by) + 1,
    decreases n,
{
    if n > 1 {
        lemma_exact_min_step(targets, n - 1, ax, ay, bx, by);
    }
}

/// The exact Chebyshev bound of a node: 0 at the super-source.
spec fn exact_bound(targets: Seq<(usize, usize)>, n: PfNode) -> int {
    match n {
        Some((x, y, _)) => exact_min(targets, targets.len() as int, x as int, y as int),
        None => 0,
    }
}

proof fn lemma_walk_bound(
    g: &GridMap,
    sources: Seq<State>,
    targets: Seq<(usize, usize)>,
    q: Seq<PfNode>,
    present_factor: u32,
    via_cost: u32,
)
    requires
        g.wf(),
        g.costs_fit(present_factor),
        q.len() >= 1,
        is_walk(g, sources, q, present_factor, via_cost),
        at_target(targets, q.last()),
    ensures
        exact_bound(targets, q[0]) <= walk_cost(g, sources, q, present_factor, via_cost),
    decreases q.len(),
{
    let n = targets.len() as int;
    if q.len() == 1 {
        let (x, y, l) = q[0]->0;
        assert(targets.contains((x, y)));
        let k = choose|k: int| 0 <= k < targets.len() && targets[k] == (x, y);
        assert(targets[k].0 == x && targets[k].1 == y);
        lemma_exact_min(targets, n, x as int, y as int);
    } else {
        let rest = q.drop_first();
        assert forall|i: int| 0 <= i < rest.len() - 1 implies #[trigger] edge_cost(
            g,
            sources,
            rest[i],
            rest[i + 1],
            present_factor,
            via_cost,
        ) is Some by {
            assert(edge_cost(g, sources, q[i + 1], q[i + 1 + 1], present_factor, via_cost) is Some);
        }
        assert(rest.last() == q.last());
        lemma_walk_bound(g, sources, targets, rest, present_factor, via_cost);
        assert(edge_cost(g, sources, q[0], q[1], present_factor, via_cost) is Some);
        let c = edge_cost(g, sources, q[0], q[1], present_factor, via_cost)->0;
        match q[0] {
            None => {
                match q[1] {
                    Some((bx, by, _)) => {
                        lemma_exact_min(targets, n, bx as int, by as int);
                    },
                    None => {},
                }
            },
            Some((ax, ay, al)) => {
                let (bx, by, bl) = q[1]->0;
                lemma_exact_min_step(targets, n, ax as int, ay as int, bx as int, by as int);
                if bl == al {
                    let k = g.idx(bx as int, by as int, al as int);
                    assert(g.in_bounds(bx as int, by as int, al as int));
                    crate::grid::lemma_cell_index(g.width as int, g.height as int, g.num_layers as int, bx as int, by as int, al as int);
                    assert(!g.is_perm(k));
                    assert(g.raw_cost(k, present_factor) <= u32::MAX);
                    assert(c >= 1);
                }
            },
        }
    }
}

/// The Chebyshev heuristic never overestimates: every move changes the
/// distance to a target by at most one and costs at least one.
proof fn lemma_admissible(
    g: &GridMap,
    sources: Seq<State>,
    targets: Seq<(usize, usize)>,
    present_factor: u32,
    via_cost: u32,
)
    requires
        g.wf(),
        g.costs_fit(present_factor),
    ensures
        admissible(g, sources, targets, present_factor, via_cost),
{
    assert forall|q: Seq<PfNode>|
        q.len() >= 1 && is_walk(g, sources, q, present_factor, via_cost) && at_target(targets, q.last())
            implies spec_heuristic(targets, q[0]) <= #[trigger] walk_cost(g, sources, q, present_factor, via_cost) by {
        lemma_walk_bound(g, sources, targets, q, present_factor, via_cost);
        match q[0] {
            Some((x, y, _)) => {
                lemma_exact_min(targets, targets.len() as int, x as int, y as int);
            },
            None => {},
        }
    }
}

/// Away from the super-source, the cost of a walk does not depend on the sources.
proof fn lemma_walk_cost_sources(
    g: &GridMap,
    s1: Seq<State>,
    s2: Seq<State>,
    q: Seq<PfNode>,
    present_factor: u32,
    via_cost: u32,
)
    requires
        forall|i: int| 0 <= i < q.len() ==> (#[trigger] q[i]) is Some,
    ensures
        walk_cost(g, s1, q, present_factor, via_cost) == walk_cost(g, s2, q, present_factor, via_cost),
    decreases q.len(),
{
    if q.len() > 1 {
        assert(q[0] is Some);
        assert forall|i: int| 0 <= i < q.drop_first().len() implies (#[trigger] q.drop_first()[i]) is Some by {
            assert(q[i + 1] is Some);
        }
        lemma_walk_cost_sources(g, s1, s2, q.drop_first(), present_factor, via_cost);
    }
}

/// A route, entered from the super-source, is a walk of the search to a goal.
proof fn lemma_route_as_walk(
    g: &GridMap,
    sources: Seq<State>,
    targets: Seq<(usize, usize)>,
    p: Seq<State>,
    present_factor: u32,
    via_cost: u32,
)
    requires
        is_route(g, sources, targets, p, present_factor, via_cost),
    ensures
        ({
            let q = seq![None] + p.map_values(|s: State| Some(s));
            &&& q.len() >= 1
            &&& q[0] is None
            &&& is_walk(g, sources, q, present_factor, via_cost)
            &&& at_target(targets, q.last())
        }),
{
    let q: Seq<PfNode> = seq![None] + p.map_values(|s: State| Some(s));
    assert(q.len() == p.len() + 1);
    assert forall|i: int| 0 <= i < q.len() - 1 implies #[trigger] edge_cost(
        g,
        sources,
        q[i],
        q[i + 1],
        present_factor,
        via_cost,
    ) is Some by {
        if i > 0 {
            assert(q[i] == Some(p[i - 1]));
            assert(q[i + 1] == Some(p[i]));
            assert(edge_cost(g, Seq::empty(), Some(p[i - 1]), Some(p[(i - 1) + 1]), present_factor, via_cost) is Some);
        } else {
            assert(q[1] == Some(p[0]));
        }
    }
    assert(q.last() == Some(p.last()));
}

/// A route behind the super-source is a walk of the same cost.
proof fn lemma_route_walk_cost(g: &GridMap, sources: Seq<State>, c: Seq<State>, present_factor: u32, via_cost: u32)
    requires
        c.len() >= 1,
        sources.contains(c[0]),
    ensures
        walk_cost(g, sources, seq![None] + c.map_values(|s: State| Some(s)), present_factor, via_cost)
            == route_cost(g, c, present_factor, via_cost),
{
    let m = c.map_values(|s: State| Some(s));
    let w = seq![None] + m;
    assert(w.drop_first() =~= m);
    assert(w[1] == Some(c[0]));
    assert(edge_cost(g, sources, w[0], w[1], present_factor, via_cost) == Some(0u32));
    assert forall|i: int| 0 <= i < m.len() implies (#[trigger] m[i]) is Some by {}
    lemma_walk_cost_sources(g, sources, Seq::empty(), m, present_factor, via_cost);
}

/// A* search (`pathfinding::directed::astar::astar`) from the super-source over
/// the moves of [`edge_cost`], guided by [`heuristic`], to a node for which
/// [`is_goal`] holds.
///
/// Claimed of the crate, as its documentation and source show: a returned path
/// starts at the start node, follows moves that `successors` offered, and ends
/// at a goal; when the heuristic never overestimates (the `requires`), no other
/// such path costs less; `None` comes only when no goal can be reached.
#[verifier::external_body]
fn astar_path(
    g: &GridMap,
    sources: &Vec<State>,
    targets: &Vec<(usize, usize)>,
    present_factor: u32,
    via_cost: u32,
) -> (r: Option<Vec<PfNode>>)
    requires
        g.wf(),
        g.costs_fit(present_factor),
        admissible(g, sources@, targets@, present_factor, via_cost),
    ensures
        match r {
            Some(p) => p@.len() >= 1 && p@[0] is None && at_target(targets@, p@.last()) && is_walk(
                g,
                sources@,
                p@,
                present_factor,
                via_cost,
            ) && forall|q: Seq<PfNode>|
                q.len() >= 1 && q[0] is None && is_walk(g, sources@, q, present_factor, via_cost) && at_target(
                    targets@,
                    q.last(),
                ) ==> walk_cost(g, sources@, p@, present_factor, via_cost) <= #[trigger] walk_cost(
                    g,
                    sources@,
                    q,
                    present_factor,
                    via_cost,
                ),
            None => forall|p: Seq<PfNode>|
                p.len() >= 1 && p[0] is None && is_walk(g, sources@, p, present_factor, via_cost)
                    ==> !at_target(targets@, p.last()),
        },
{
    pathfinding::prelude::astar(
        &None::<State>,
        |n: &PfNode| successors(g, sources, n, present_factor, via_cost),
        |n: &PfNode| heuristic(targets, n),
        |n: &PfNode| is_goal(targets, n),
    ).map(|(path, _cost)| path)
}

/// Whether consecutive cells of `p` are joined by moves of the search graph.
pub open spec fn is_grid_walk(g: &GridMap, p: Seq<State>, present_factor: u32, via_cost: u32) -> bool {
    forall|i: int|
        0 <= i < p.len() - 1 ==> #[trigger] edge_cost(
            g,
            Seq::empty(),
            Some(p[i]),
            Some(p[i + 1]),
            present_factor,
            via_cost,
        ) is Some
}

/// A walk over the grid from one of `sources` to a cell at one of `targets`.
pub open spec fn is_route(
    g: &GridMap,
    sources: Seq<State>,
    targets: Seq<(usize, usize)>,
    p: Seq<State>,
    present_factor: u32,
    via_cost: u32,
) -> bool {
    &&& p.len() >= 1
    &&& sources.contains(p[0])
    &&& is_grid_walk(g, p, present_factor, via_cost)
    &&& targets.contains((p.last().0, p.last().1))
}

/// The lowest-cost path (as found by A*) from any source to any cell at one of
/// `targets` (matched by position on any layer).
pub fn find_path(
    g: &GridMap,
    sources: &Vec<State>,
    targets: &Vec<(usize, usize)>,
    via_cost: u32,
    present_factor: u32,
) -> (r: Option<Vec<State>>)
    requires
        g.wf(),
        g.costs_fit(present_factor),
    ensures
        match r {
            Some(p) => is_route(g, sources@, targets@, p@, present_factor, via_cost) && forall|q: Seq<State>|
                is_route(g, sources@, targets@, q, present_factor, via_cost) ==> route_cost(g, p@, present_factor, via_cost)
                    <= #[trigger] route_cost(g, q, present_factor, via_cost),
            None => forall|p: Seq<State>| !is_route(g, sources@, targets@, p, present_factor, via_cost),
        },
{
    proof {
        lemma_admissible(g, sources@, targets@, present_factor, via_cost);
    }
    let found = astar_path(g, sources, targets, present_factor, via_cost);
    match found {
        None => {
            proof {
                assert forall|p: Seq<State>| !is_route(g, sources@, targets@, p, present_factor, via_cost) by {
                    if is_route(g, sources@, targets@, p, present_factor, via_cost) {
                        lemma_route_as_walk(g, sources@, targets@, p, present_factor, via_cost);
                    }
                }
            }
            None
        },
        Some(path) => {
            let mut cells: Vec<State> = Vec::new();
            let mut i: usize = 1;
            while i < path.len()
                invariant
                    1 <= i <= path@.len(),
                    path@[0] is None,
                    is_walk(g, sources@, path@, present_factor, via_cost),
                    cells@.len() == i - 1,
                    forall|j: int| 0 <= j < i - 1 ==> path@[j + 1] == Some(#[trigger] cells@[j]),
                decreases path@.len() - i,
            {
                let ghost j: int = i - 1;
                assert(edge_cost(g, sources@, path@[j], path@[j + 1], present_factor, via_cost) is Some);
                match path[i] {
                    Some(c) => {
                        cells.push(c);
                    },
                    None => {
                        assert(false);
                        cells.push((0, 0, 0));
                    },
                }
                i = i + 1;
            }
            proof {
                assert(path@.len() >= 2) by {
                    if path@.len() == 1 {
                        assert(at_target(targets@, path@[0]));
                    }
                }
                assert(edge_cost(g, sources@, path@[0], path@[0int + 1], present_factor, via_cost) is Some);
                assert(sources@.contains(cells@[0]));
                assert forall|i: int| 0 <= i < cells@.len() - 1 implies #[trigger] edge_cost(
                    g,
                    Seq::empty(),
                    Some(cells@[i]),
                    Some(cells@[i + 1]),
                    present_factor,
                    via_cost,
                ) is Some by {
                    assert(path@[i + 1] == Some(cells@[i]));
                    assert(path@[i + 1 + 1] == Some(cells@[i + 1]));
                    assert(edge_cost(g, sources@, path@[i + 1], path@[i + 1 + 1], present_factor, via_cost) is Some);
                }
                assert(path@.last() == Some(cells@.last()));
                assert(path@ =~= seq![None] + cells@.map_values(|s: State| Some(s)));
                lemma_route_walk_cost(g, sources@, cells@, present_factor, via_cost);
                assert forall|q: Seq<State>| is_route(g, sources@, targets@, q, present_factor, via_cost) implies route_cost(
                    g,
                    cells@,
                    present_factor,
                    via_cost,
                ) <= #[trigger] route_cost(g, q, present_factor, via_cost) by {
                    let w: Seq<PfNode> = seq![None] + q.map_values(|s: State| Some(s));
                    lemma_route_as_walk(g, sources@, targets@, q, present_factor, via_cost);
                    lemma_route_walk_cost(g, sources@, q, present_factor, via_cost);
                    assert(walk_cost(g, sources@, path@, present_factor, via_cost) <= walk_cost(g, sources@, w, present_factor, via_cost));
                }
            }
            Some(cells)
        },
    }
}
} // verus!
