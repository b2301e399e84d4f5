use vstd::prelude::*;
use std::sync::mpsc::SyncSender;
use crate::grid::{GridMap, sat_mul_u32, sat_mul_u32_exec, sat_add_u32, pad_among};
use crate::commit::{GridWire, halo_fits, same_except_occupancy};
use crate::steiner::{
    route_net_steiner, connects_all, wires_of_paths, all_vias, costs_fit_any_occupancy,
    pads_in_grid, pads_small, is_track, lemma_track_same_grid, adjacent, open_cell, pos, reachable,
    clear_cell, clear_track_between, steiner_found,
};
use crate::search::State;

verus! {

#[verifier::external_type_specification]
#[verifier::external_body]
#[verifier::reject_recursive_types(T)]
pub struct ExSyncSender<T>(SyncSender<T>);

/// Parameters of the PathFinder loop.
pub struct RouterConfig {
    /// Extra search cost for a via (layer transition).
    pub via_cost: u32,
    /// Passes after the first one (so at most `max_pf_passes + 1` passes run).
    pub max_pf_passes: usize,
    /// Per-pass increment of the present-congestion factor: pass `n` uses
    /// `n × present_factor_step`.
    pub present_factor_step: u32,
    /// Per-pass increment of the history cost of overused cells.
    pub history_increment: u32,
}

impl RouterConfig {
    /// The default settings.
    pub fn default_config() -> (c: RouterConfig)
        ensures
            c.via_cost == 15,
            c.max_pf_passes == 50,
            c.present_factor_step == 2,
            c.history_increment == 1,
    {
        RouterConfig { via_cost: 15, max_pf_passes: 50, present_factor_step: 2, history_increment: 1 }
    }
}

/// One net to route: its pads on the grid and its clearance halo.
pub struct NetJob {
    /// Position of the net in the board's net list.
    pub net_index: usize,
    pub name: String,
    pub pads: Vec<(usize, usize)>,
    /// Radius (in cells) of the halo that the net's cells claim.
    pub clearance_cells: usize,
}

/// The wires and via positions of one routed net.
#[derive(Clone, Debug)]
pub struct NetRoute {
    pub wires: Vec<GridWire>,
    pub vias: Vec<(usize, usize)>,
}

/// Progress reports of the router.
pub enum ProgressEvent {
    StartNet { name: String, idx: usize, total: usize },
    NetRouted { name: String, wires: Vec<GridWire>, vias: Vec<(usize, usize)> },
    NetFailed { name: String },
    PassComplete { pass: usize, routed: usize, total: usize },
    Finished { routes: Vec<Option<NetRoute>> },
}

/// Hands a progress report to the channel (`SyncSender::send`); a closed
/// channel is ignored.
#[verifier::external_body]
fn send_event(tx: &SyncSender<ProgressEvent>, ev: ProgressEvent) {
    let _ = tx.send(ev);
}

/// Hands `ev` to `tx` (when given), and records it after the reports in `log`.
fn notify(tx: Option<&SyncSender<ProgressEvent>>, ev: ProgressEvent, log: Ghost<Seq<ProgressEvent>>) -> (r: Ghost<
    Seq<ProgressEvent>,
>)
    ensures
        r@ == log@.push(ev),
{
    let ghost out = log@.push(ev);
    match tx {
        Some(t) => send_event(t, ev),
        None => {},
    }
    Ghost(out)
}

/// A grid wire as plain values: layer, layer name and corner points.
pub open spec fn wire_view(w: GridWire) -> (usize, Seq<char>, Seq<(usize, usize)>) {
    (w.layer, w.layer_name@, w.points@)
}

/// A net's route (or its absence) as plain values.
pub open spec fn route_view(o: Option<NetRoute>) -> Option<(Seq<(usize, Seq<char>, Seq<(usize, usize)>)>, Seq<(usize, usize)>)> {
    match o {
        Some(nr) => Some((nr.wires@.map_values(|w: GridWire| wire_view(w)), nr.vias@)),
        None => None,
    }
}

/// The routes as plain values.
pub open spec fn routes_view(rs: Seq<Option<NetRoute>>) -> Seq<Option<(Seq<(usize, Seq<char>, Seq<(usize, usize)>)>, Seq<(usize, usize)>)>> {
    rs.map_values(|o: Option<NetRoute>| route_view(o))
}

fn copy_cells2(v: &Vec<(usize, usize)>) -> (r: Vec<(usize, usize)>)
    ensures
        r@ == v@,
{
    let mut out: Vec<(usize, usize)> = Vec::new();
    let mut i: usize = 0;
    while i < v.len()
        invariant
            i <= v@.len(),
            out@ == v@.take(i as int),
        decreases v@.len() - i,
    {
        out.push(v[i]);
        assert(out@ =~= v@.take(i + 1));
        i = i + 1;
    }
    assert(v@.take(v@.len() as int) =~= v@);
    out
}

fn copy_route(nr: &NetRoute) -> (r: NetRoute)
    ensures
        route_view(Some(r)) == route_view(Some(*nr)),
{
    let mut wires: Vec<GridWire> = Vec::new();
    let mut i: usize = 0;
    while i < nr.wires.len()
        invariant
            i <= nr.wires@.len(),
            wires@.map_values(|w: GridWire| wire_view(w)) == nr.wires@.take(i as int).map_values(|w: GridWire| wire_view(w)),
        decreases nr.wires@.len() - i,
    {
        let w = &nr.wires[i];
        let c = GridWire { layer: w.layer, layer_name: w.layer_name.clone(), points: copy_cells2(&w.points) };
        let ghost before = wires@;
        wires.push(c);
        assert(wires@.map_values(|w: GridWire| wire_view(w)) =~= before.map_values(|w: GridWire| wire_view(w)).push(wire_view(c)));
        assert(nr.wires@.take(i + 1).map_values(|w: GridWire| wire_view(w)) =~= nr.wires@.take(i as int).map_values(
            |w: GridWire| wire_view(w),
        ).push(wire_view(nr.wires@[i as int])));
        i = i + 1;
    }
    assert(nr.wires@.take(nr.wires@.len() as int) =~= nr.wires@);
    NetRoute { wires, vias: copy_cells2(&nr.vias) }
}

/// A copy of the routes.
fn copy_routes(v: &Vec<Option<NetRoute>>) -> (r: Vec<Option<NetRoute>>)
    ensures
        routes_view(r@) == routes_view(v@),
{
    let mut out: Vec<Option<NetRoute>> = Vec::new();
    let mut i: usize = 0;
    while i < v.len()
        invariant
            i <= v@.len(),
            routes_view(out@) == routes_view(v@.take(i as int)),
        decreases v@.len() - i,
    {
        let c = match &v[i] {
            Some(nr) => Some(copy_route(nr)),
            None => None,
        };
        assert(route_view(c) == route_view(v@[i as int]));
        let ghost before = out@;
        out.push(c);
        assert(routes_view(out@) =~= routes_view(before).push(route_view(c)));
        assert(routes_view(v@.take(i + 1)) =~= routes_view(v@.take(i as int)).push(route_view(v@[i as int])));
        i = i + 1;
    }
    assert(v@.take(v@.len() as int) =~= v@);
    out
}

/// What each pass recorded: its routes per net, the grid it left, and its
/// routed jobs; the grid is legal exactly where the outcome says so, a job
/// counts as routed exactly when its net has a route, and every route
/// connects its net's pads.
#[verifier::opaque]
pub open spec fn passes_recorded(
    g0: &GridMap,
    jobs: Seq<NetJob>,
    num_nets: int,
    outcomes: Seq<(bool, int)>,
    routed: Seq<Seq<bool>>,
    pass_routes: Seq<Seq<Option<NetRoute>>>,
    pass_grids: Seq<GridMap>,
) -> bool {
    &&& pass_routes.len() == outcomes.len()
    &&& pass_grids.len() == outcomes.len()
    &&& routed.len() == outcomes.len()
    &&& forall|p: int| 0 <= p < outcomes.len() ==> (#[trigger] pass_routes[p]).len() == num_nets
    &&& forall|p: int|
        0 <= p < outcomes.len() ==> same_except_occupancy_and_history(g0, &#[trigger] pass_grids[p])
            && outcomes[p].0 == pass_grids[p].legal()
    &&& forall|p: int, m: int|
        0 <= p < outcomes.len() && 0 <= m < jobs.len() ==> (#[trigger] routed[p][m] <==> pass_routes[p][jobs[m].net_index as int] is Some)
    &&& forall|p: int, i: int|
        0 <= p < outcomes.len() && 0 <= i < num_nets ==> (#[trigger] pass_routes[p][i] matches Some(nr) ==> exists|j: int|
            0 <= j < jobs.len() && jobs[j].net_index == i && routes_net(g0, jobs[j].pads@, nr))
}

proof fn lemma_best_pass_range(outcomes: Seq<(bool, int)>)
    ensures
        best_pass(outcomes).0 matches Some(q) ==> 0 <= q < outcomes.len(),
    decreases outcomes.len(),
{
    if outcomes.len() > 0 {
        lemma_best_pass_range(outcomes.drop_last());
    }
}

proof fn lemma_record_pass(
    g0: &GridMap,
    jobs: Seq<NetJob>,
    num_nets: int,
    outcomes: Seq<(bool, int)>,
    routed: Seq<Seq<bool>>,
    pass_routes: Seq<Seq<Option<NetRoute>>>,
    pass_grids: Seq<GridMap>,
    legal: bool,
    count: int,
    flags: Seq<bool>,
    routes: Seq<Option<NetRoute>>,
    grid: GridMap,
)
    requires
        passes_recorded(g0, jobs, num_nets, outcomes, routed, pass_routes, pass_grids),
        same_except_occupancy_and_history(g0, &grid),
        legal == grid.legal(),
        routes.len() == num_nets,
        flags.len() == jobs.len(),
        forall|m: int| 0 <= m < jobs.len() ==> (#[trigger] flags[m] <==> routes[jobs[m].net_index as int] is Some),
        forall|i: int|
            0 <= i < num_nets ==> (#[trigger] routes[i] matches Some(nr) ==> exists|j: int|
                0 <= j < jobs.len() && jobs[j].net_index == i && routes_net(g0, jobs[j].pads@, nr)),
    ensures
        passes_recorded(
            g0,
            jobs,
            num_nets,
            outcomes.push((legal, count)),
            routed.push(flags),
            pass_routes.push(routes),
            pass_grids.push(grid),
        ),
{
    reveal(passes_recorded);
    let o2 = outcomes.push((legal, count));
    let r2 = routed.push(flags);
    let pr2 = pass_routes.push(routes);
    let pg2 = pass_grids.push(grid);
    let n = outcomes.len() as int;
    assert forall|p: int| 0 <= p < o2.len() implies (#[trigger] pr2[p]).len() == num_nets by {
        if p < n {
            assert(pr2[p] == pass_routes[p]);
        }
    }
    assert forall|p: int| 0 <= p < o2.len() implies same_except_occupancy_and_history(g0, &#[trigger] pg2[p]) && o2[p].0 == pg2[p].legal() by {
        if p < n {
            assert(pg2[p] == pass_grids[p]);
            assert(o2[p] == outcomes[p]);
        }
    }
    assert forall|p: int, m: int| 0 <= p < o2.len() && 0 <= m < jobs.len() implies (#[trigger] r2[p][m] <==> pr2[p][jobs[m].net_index as int] is Some) by {
        if p < n {
            assert(r2[p] == routed[p]);
            assert(pr2[p] == pass_routes[p]);
        }
    }
    assert forall|p: int, i: int| 0 <= p < o2.len() && 0 <= i < num_nets implies (#[trigger] pr2[p][i] matches Some(nr) ==> exists|j: int|
        0 <= j < jobs.len() && jobs[j].net_index == i && routes_net(g0, jobs[j].pads@, nr)) by {
        if p < n {
            assert(pr2[p] == pass_routes[p]);
        }
    }
}

/// Whether a pass with outcome `(legal, routed)` beats the best so far:
/// legal beats illegal; between equals, more routed nets win.
pub open spec fn is_better(legal: bool, routed: int, best_legal: bool, best_routed: int) -> bool {
    if legal && !best_legal {
        true
    } else if legal == best_legal {
        routed > best_routed
    } else {
        false
    }
}

/// The best of the pass outcomes `(legal, routed)`: its pass number (`None`
/// while no pass has beaten the empty start), legality and routed count.
pub open spec fn best_pass(outcomes: Seq<(bool, int)>) -> (Option<int>, bool, int)
    decreases outcomes.len(),
{
    if outcomes.len() == 0 {
        (None, false, 0)
    } else {
        let prev = best_pass(outcomes.drop_last());
        let o = outcomes.last();
        if is_better(o.0, o.1, prev.1, prev.2) {
            (Some(outcomes.len() - 1), o.0, o.1)
        } else {
            prev
        }
    }
}

/// The number of routed entries.
pub open spec fn count_routed(s: Seq<Option<NetRoute>>) -> int
    decreases s.len(),
{
    if s.len() == 0 {
        0
    } else {
        count_routed(s.drop_last()) + if s.last() is Some { 1int } else { 0int }
    }
}

/// `r` connects all of `pads` on grid `g`, with the wires and vias of its connections.
pub open spec fn routes_net(g: &GridMap, pads: Seq<(usize, usize)>, r: NetRoute) -> bool {
    exists|paths: Seq<Seq<crate::search::State>>, order: Seq<int>|
        connects_all(g, pads, paths, order) && wires_of_paths(r.wires@, paths, g.layer_names@)
            && r.vias@ == all_vias(paths) && r.wires@.len() > 0
}

/// The grid's costs stay below `u32::MAX` over all passes of `config`.
pub open spec fn config_fits(g: &GridMap, config: &RouterConfig) -> bool {
    forall|k: int|
        0 <= k < g.num_cells() && !g.is_perm(k) ==> 1 + config.max_pf_passes * config.present_factor_step * 255
            + #[trigger] g.history@[k] + config.max_pf_passes * config.history_increment < u32::MAX
}

/// The jobs name distinct nets of a board with `num_nets` nets, and their
/// pads and halos suit the grid.
pub open spec fn jobs_ok(g: &GridMap, jobs: Seq<NetJob>, num_nets: int) -> bool {
    &&& forall|j: int| 0 <= j < jobs.len() ==> (#[trigger] jobs[j]).net_index < num_nets
    &&& forall|j: int, m: int| 0 <= j < m < jobs.len() ==> (#[trigger] jobs[j]).net_index != (#[trigger] jobs[m]).net_index
    &&& forall|j: int|
        0 <= j < jobs.len() ==> pads_in_grid(g, (#[trigger] jobs[j]).pads@) && pads_small(jobs[j].pads@)
            && halo_fits(g, jobs[j].clearance_cells)
}

proof fn lemma_count_update(s: Seq<Option<NetRoute>>, i: int, r: NetRoute)
    requires
        0 <= i < s.len(),
        s[i] is None,
    ensures
        count_routed(s.update(i, Some(r))) == count_routed(s) + 1,
    decreases s.len(),
{
    let t = s.update(i, Some(r));
    if i == s.len() - 1 {
        assert(t.drop_last() =~= s.drop_last());
    } else {
        assert(t.drop_last() =~= s.drop_last().update(i, Some(r)));
        lemma_count_update(s.drop_last(), i, r);
    }
}

proof fn lemma_count_none(n: nat)
    ensures
        count_routed(Seq::new(n, |i: int| None::<NetRoute>)) == 0,
    decreases n,
{
    if n > 0 {
        assert(Seq::new(n, |i: int| None::<NetRoute>).drop_last() =~= Seq::new((n - 1) as nat, |i: int| None::<NetRoute>));
        lemma_count_none((n - 1) as nat);
    }
}

proof fn lemma_routes_same_grid(a: &GridMap, b: &GridMap, pads: Seq<(usize, usize)>, r: NetRoute)
    requires
        routes_net(a, pads, r),
        same_except_occupancy_and_history(a, b),
    ensures
        routes_net(b, pads, r),
{
    let (paths, order) = choose|paths: Seq<Seq<crate::search::State>>, order: Seq<int>|
        connects_all(a, pads, paths, order) && wires_of_paths(r.wires@, paths, a.layer_names@)
            && r.vias@ == all_vias(paths) && r.wires@.len() > 0;
    assert forall|j: int| 0 <= j < paths.len() implies is_track(b, #[trigger] paths[j]) by {
        lemma_track_same_grid(a, b, paths[j]);
    }
    assert(connects_all(b, pads, paths, order));
}

fn none_routes(n: usize) -> (r: Vec<Option<NetRoute>>)
    ensures
        r@ == Seq::new(n as nat, |i: int| None::<NetRoute>),
{
    let mut v: Vec<Option<NetRoute>> = Vec::new();
    let mut i: usize = 0;
    while i < n
        invariant
            i <= n,
            v@ == Seq::new(i as nat, |k: int| None::<NetRoute>),
        decreases n - i,
    {
        v.push(None);
        assert(v@ =~= Seq::new((i + 1) as nat, |k: int| None::<NetRoute>));
        i = i + 1;
    }
    v
}


/// The number of `true` entries.
pub open spec fn count_true(s: Seq<bool>) -> int
    decreases s.len(),
{
    if s.len() == 0 {
        0
    } else {
        count_true(s.drop_last()) + if s.last() { 1int } else { 0int }
    }
}

proof fn lemma_count_true_push(s: Seq<bool>, b: bool)
    ensures
        count_true(s.push(b)) == count_true(s) + if b { 1int } else { 0int },
{
    assert(s.push(b).drop_last() =~= s);
}

proof fn lemma_count_true_zero(s: Seq<bool>, i: int)
    requires
        0 <= i < s.len(),
        s[i],
    ensures
        count_true(s) > 0,
    decreases s.len(),
{
    if i < s.len() - 1 {
        assert(s.drop_last()[i] == s[i]);
        lemma_count_true_zero(s.drop_last(), i);
    }
    lemma_count_true_nonneg(s.drop_last());
}

proof fn lemma_count_true_nonneg(s: Seq<bool>)
    ensures
        count_true(s) >= 0,
    decreases s.len(),
{
    if s.len() > 0 {
        lemma_count_true_nonneg(s.drop_last());
    }
}

/// A track from pad `a` (on a layer of the grid) to pad `b` over cells that
/// are no hard obstacle.
pub open spec fn open_track_between(g: &GridMap, p: Seq<State>, a: (usize, usize), b: (usize, usize)) -> bool {
    &&& p.len() >= 1
    &&& forall|i: int| 0 <= i < p.len() - 1 ==> adjacent(p[i], #[trigger] p[i + 1]) && open_cell(g, p[i + 1])
    &&& pos(p[0]) == a && p[0].2 < g.num_layers && pos(p.last()) == b
}

/// Pad `b` can be reached from pad `a` through cells that are no hard obstacle.
pub open spec fn open_reachable(g: &GridMap, a: (usize, usize), b: (usize, usize)) -> bool {
    exists|p: Seq<State>| #[trigger] open_track_between(g, p, a, b)
}

/// A net that every pass routes: at least two pads, each reachable from the
/// first through cells that are no obstacle, and none on the first pad's position.
pub open spec fn job_routable(g: &GridMap, pads: Seq<(usize, usize)>) -> bool {
    &&& pads.len() >= 2
    &&& forall|k: int| 1 <= k < pads.len() ==> open_reachable(g, pads[0], #[trigger] pads[k]) && pads[k] != pads[0]
}

/// The two reports on job number `idx`: its start, then whether it was
/// routed, with the route found.
pub open spec fn job_events_ok(
    e0: ProgressEvent,
    e1: ProgressEvent,
    job: NetJob,
    idx: int,
    total: int,
    routed: bool,
    route: Option<NetRoute>,
) -> bool {
    &&& e0 matches ProgressEvent::StartNet { name, idx: i, total: t } && name == job.name && i == idx && t == total
    &&& if routed {
        e1 matches ProgressEvent::NetRouted { name, wires, vias } && name == job.name && route_view(
            Some(NetRoute { wires, vias }),
        ) == route_view(route)
    } else {
        e1 matches ProgressEvent::NetFailed { name } && name == job.name
    }
}

/// The reports of pass number `pass`: the two reports on each job in order
/// (with the route of the job's net in `routes`), then the pass's count of
/// routed jobs.
pub open spec fn pass_events_ok(
    evs: Seq<ProgressEvent>,
    jobs: Seq<NetJob>,
    pass: int,
    routed: Seq<bool>,
    routes: Seq<Option<NetRoute>>,
) -> bool {
    &&& evs.len() == 2 * jobs.len() + 1
    &&& routed.len() == jobs.len()
    &&& forall|j: int|
        0 <= j < jobs.len() ==> job_events_ok(
            #[trigger] evs[2 * j],
            evs[2 * j + 1],
            jobs[j],
            j,
            jobs.len() as int,
            routed[j],
            routes[jobs[j].net_index as int],
        )
    &&& evs.last() matches ProgressEvent::PassComplete { pass: p, routed: n, total: t } && p == pass && n == count_true(routed)
        && t == jobs.len()
}

/// The reports of all passes, one pass after another.
pub open spec fn concat_events(s: Seq<Seq<ProgressEvent>>) -> Seq<ProgressEvent>
    decreases s.len(),
{
    if s.len() == 0 {
        Seq::empty()
    } else {
        concat_events(s.drop_last()) + s.last()
    }
}

/// The cells of every pass stay passable: their cost is below `u32::MAX`.
proof fn lemma_pass_clear(g0: &GridMap, g: &GridMap, config: &RouterConfig, pass: int, present_factor: u32)
    requires
        same_except_occupancy_and_history(g0, g),
        config_fits(g0, config),
        0 <= pass <= config.max_pf_passes,
        present_factor == sat_mul_u32((pass % 0x1_0000_0000) as u32, config.present_factor_step),
        forall|k: int| 0 <= k < g0.num_cells() ==> #[trigger] g.history@[k] <= g0.history@[k] + pass * config.history_increment,
    ensures
        forall|k: int| 0 <= k < g.num_cells() && !g.is_perm(k) ==> 1 + sat_mul_u32(present_factor, 255) + #[trigger] g.history@[k] < u32::MAX,
{
    let p32 = (pass % 0x1_0000_0000) as u32;
    assert(p32 <= pass);
    assert(p32 as int * config.present_factor_step <= pass * config.present_factor_step) by (nonlinear_arith)
        requires
            0 <= p32 <= pass,
    ;
    assert(pass * config.present_factor_step <= config.max_pf_passes * config.present_factor_step) by (nonlinear_arith)
        requires
            0 <= pass <= config.max_pf_passes,
    ;
    assert(pass * config.history_increment <= config.max_pf_passes * config.history_increment) by (nonlinear_arith)
        requires
            0 <= pass <= config.max_pf_passes,
    ;
    assert(sat_mul_u32(present_factor, 255) <= present_factor * 255) by (nonlinear_arith);
    assert(present_factor * 255 <= config.max_pf_passes * config.present_factor_step * 255) by (nonlinear_arith)
        requires
            present_factor <= config.max_pf_passes * config.present_factor_step,
    ;
    assert forall|k: int| 0 <= k < g.num_cells() && !g.is_perm(k) implies 1 + sat_mul_u32(present_factor, 255) + #[trigger] g.history@[k] < u32::MAX by {
        assert(g0.is_perm(k) == g.is_perm(k));
        assert(g.history@[k] <= g0.history@[k] + pass * config.history_increment);
        assert(1 + config.max_pf_passes * config.present_factor_step * 255 + g0.history@[k] + config.max_pf_passes * config.history_increment < u32::MAX);
    }
}

/// A pad reachable through open cells is reachable in every pass.
proof fn lemma_open_reachable(g0: &GridMap, g: &GridMap, a: (usize, usize), b: (usize, usize), present_factor: u32)
    requires
        open_reachable(g0, a, b),
        same_except_occupancy_and_history(g0, g),
        forall|k: int| 0 <= k < g.num_cells() && !g.is_perm(k) ==> 1 + sat_mul_u32(present_factor, 255) + #[trigger] g.history@[k] < u32::MAX,
    ensures
        reachable(g, a, b, present_factor),
{
    let p = choose|p: Seq<State>| #[trigger] open_track_between(g0, p, a, b);
    assert forall|i: int| 0 <= i < p.len() - 1 implies adjacent(p[i], #[trigger] p[i + 1]) && clear_cell(g, p[i + 1], present_factor) by {
        assert(open_cell(g0, p[i + 1]));
        let c = p[i + 1];
        crate::grid::lemma_cell_index(g.width as int, g.height as int, g.num_layers as int, c.0 as int, c.1 as int, c.2 as int);
    }
    assert(clear_track_between(g, p, a, b, present_factor));
}

/// The present-congestion factor of pass `p`.
pub open spec fn pass_factor(config: &RouterConfig, p: int) -> u32 {
    sat_mul_u32((p % 0x1_0000_0000) as u32, config.present_factor_step)
}

/// The occupancy of a grid that no net claims.
pub open spec fn zero_occupancy(g: &GridMap) -> Seq<u8> {
    Seq::new(g.num_cells() as nat, |k: int| 0u8)
}

/// The occupancy once `expose_pads` has cleared the cells at `pads` on every layer.
pub open spec fn exposed_pads(g: &GridMap, occ: Seq<u8>, pads: Seq<(usize, usize)>) -> Seq<u8> {
    Seq::new(
        occ.len(),
        |k: int|
            if !g.is_perm(k) && pad_among(pads, pads.len() as int, g.cell_x(k), g.cell_y(k)) {
                0u8
            } else {
                occ[k]
            },
    )
}

/// The history once `update_history` has charged each shared cell.
pub open spec fn history_update(h: Seq<u32>, occ: Seq<u8>, inc: u32) -> Seq<u32> {
    Seq::new(h.len(), |k: int| if occ[k] > 1 { sat_add_u32(h[k], inc) } else { h[k] })
}

/// How each pass searched: `job_grids[p][j]` is the grid that job `j` of pass
/// `p` was routed on (the pass's cleared grid with the earlier jobs' claims,
/// `after_occ[p][j - 1]`, and the job's pads exposed), each route of the pass
/// is what routing its job on that grid found under the pass's present factor
/// and the configured via cost, leaving `after_occ[p][j]`, and the pass's grid
/// holds the claims of its last job.
#[verifier::opaque]
pub open spec fn passes_searched(
    g0: &GridMap,
    jobs: Seq<NetJob>,
    config: &RouterConfig,
    pass_routes: Seq<Seq<Option<NetRoute>>>,
    pass_grids: Seq<GridMap>,
    job_grids: Seq<Seq<GridMap>>,
    after_occ: Seq<Seq<Seq<u8>>>,
) -> bool {
    &&& job_grids.len() == pass_grids.len()
    &&& after_occ.len() == pass_grids.len()
    &&& forall|p: int| 0 <= p < pass_grids.len() ==> (#[trigger] job_grids[p]).len() == jobs.len() && after_occ[p].len() == jobs.len()
    &&& forall|p: int, j: int|
        #![trigger job_grids[p][j]]
        0 <= p < pass_grids.len() && 0 <= j < jobs.len() ==> {
            &&& same_except_occupancy_and_history(g0, &job_grids[p][j])
            &&& job_grids[p][j].history@ == pass_grids[p].history@
            &&& job_grids[p][j].occupancy@ == exposed_pads(
                g0,
                if j == 0 {
                    zero_occupancy(g0)
                } else {
                    after_occ[p][j - 1]
                },
                jobs[j].pads@,
            )
            &&& pass_routes[p][jobs[j].net_index as int] matches Some(nr) ==> steiner_found(
                &job_grids[p][j],
                jobs[j].pads@,
                jobs[j].clearance_cells as int,
                pass_factor(config, p),
                config.via_cost,
                nr.wires@,
                nr.vias@,
                after_occ[p][j],
            )
        }
    &&& forall|p: int|
        0 <= p < pass_grids.len() ==> (#[trigger] pass_grids[p]).occupancy@ == if jobs.len() == 0 {
            zero_occupancy(g0)
        } else {
            after_occ[p][jobs.len() - 1]
        }
}

/// How the first `jg.len()` jobs of pass `p` were searched (see
/// [`passes_searched`]), on grids with history `h`.
#[verifier::opaque]
pub open spec fn jobs_searched(
    g0: &GridMap,
    jobs: Seq<NetJob>,
    config: &RouterConfig,
    p: int,
    h: Seq<u32>,
    routes: Seq<Option<NetRoute>>,
    jg: Seq<GridMap>,
    ao: Seq<Seq<u8>>,
) -> bool {
    &&& jg.len() == ao.len()
    &&& jg.len() <= jobs.len()
    &&& forall|j: int|
        #![trigger jg[j]]
        0 <= j < jg.len() ==> {
            &&& same_except_occupancy_and_history(g0, &jg[j])
            &&& jg[j].history@ == h
            &&& jg[j].occupancy@ == exposed_pads(
                g0,
                if j == 0 {
                    zero_occupancy(g0)
                } else {
                    ao[j - 1]
                },
                jobs[j].pads@,
            )
            &&& routes[jobs[j].net_index as int] matches Some(nr) ==> steiner_found(
                &jg[j],
                jobs[j].pads@,
                jobs[j].clearance_cells as int,
                pass_factor(config, p),
                config.via_cost,
                nr.wires@,
                nr.vias@,
                ao[j],
            )
        }
}

proof fn lemma_job_step(
    g0: &GridMap,
    jobs: Seq<NetJob>,
    config: &RouterConfig,
    p: int,
    h: Seq<u32>,
    routes: Seq<Option<NetRoute>>,
    jg: Seq<GridMap>,
    ao: Seq<Seq<u8>>,
    routes2: Seq<Option<NetRoute>>,
    gb: GridMap,
    occ: Seq<u8>,
)
    requires
        jobs_searched(g0, jobs, config, p, h, routes, jg, ao),
        jg.len() < jobs.len(),
        same_except_occupancy_and_history(g0, &gb),
        gb.history@ == h,
        gb.occupancy@ == exposed_pads(
            g0,
            if jg.len() == 0 {
                zero_occupancy(g0)
            } else {
                ao[jg.len() - 1]
            },
            jobs[jg.len() as int].pads@,
        ),
        forall|m: int| 0 <= m < jg.len() ==> routes2[(#[trigger] jobs[m]).net_index as int] == routes[jobs[m].net_index as int],
        routes2[jobs[jg.len() as int].net_index as int] matches Some(nr) ==> steiner_found(
            &gb,
            jobs[jg.len() as int].pads@,
            jobs[jg.len() as int].clearance_cells as int,
            pass_factor(config, p),
            config.via_cost,
            nr.wires@,
            nr.vias@,
            occ,
        ),
    ensures
        jobs_searched(g0, jobs, config, p, h, routes2, jg.push(gb), ao.push(occ)),
{
    reveal(jobs_searched);
    let n = jg.len() as int;
    let jg2 = jg.push(gb);
    let ao2 = ao.push(occ);
    assert forall|j: int|
        #![trigger jg2[j]]
        0 <= j < jg2.len() implies {
            &&& same_except_occupancy_and_history(g0, &jg2[j])
            &&& jg2[j].history@ == h
            &&& jg2[j].occupancy@ == exposed_pads(
                g0,
                if j == 0 {
                    zero_occupancy(g0)
                } else {
                    ao2[j - 1]
                },
                jobs[j].pads@,
            )
            &&& routes2[jobs[j].net_index as int] matches Some(nr) ==> steiner_found(
                &jg2[j],
                jobs[j].pads@,
                jobs[j].clearance_cells as int,
                pass_factor(config, p),
                config.via_cost,
                nr.wires@,
                nr.vias@,
                ao2[j],
            )
        } by {
        if j < n {
            assert(jg2[j] == jg[j]);
            assert(ao2[j] == ao[j]);
            if j > 0 {
                assert(ao2[j - 1] == ao[j - 1]);
            }
            assert(routes2[jobs[j].net_index as int] == routes[jobs[j].net_index as int]);
            assert(jg[j] == jg[j]);
        } else {
            assert(jg2[j] == gb);
            assert(ao2[j] == occ);
            if j > 0 {
                assert(ao2[j - 1] == ao[j - 1]);
            }
        }
    }
}

proof fn lemma_search_pass(
    g0: &GridMap,
    jobs: Seq<NetJob>,
    config: &RouterConfig,
    pass_routes: Seq<Seq<Option<NetRoute>>>,
    pass_grids: Seq<GridMap>,
    job_grids: Seq<Seq<GridMap>>,
    after_occ: Seq<Seq<Seq<u8>>>,
    routes: Seq<Option<NetRoute>>,
    grid: GridMap,
    jg: Seq<GridMap>,
    ao: Seq<Seq<u8>>,
)
    requires
        passes_searched(g0, jobs, config, pass_routes, pass_grids, job_grids, after_occ),
        pass_routes.len() == pass_grids.len(),
        jg.len() == jobs.len(),
        jobs_searched(g0, jobs, config, pass_grids.len() as int, grid.history@, routes, jg, ao),
        grid.occupancy@ == if jobs.len() == 0 {
            zero_occupancy(g0)
        } else {
            ao[jobs.len() - 1]
        },
    ensures
        passes_searched(
            g0,
            jobs,
            config,
            pass_routes.push(routes),
            pass_grids.push(grid),
            job_grids.push(jg),
            after_occ.push(ao),
        ),
{
    reveal(passes_searched);
    reveal(jobs_searched);
    let n = pass_grids.len() as int;
    let pr = pass_routes.push(routes);
    let pg = pass_grids.push(grid);
    let jgs = job_grids.push(jg);
    let aos = after_occ.push(ao);
    assert forall|p: int| 0 <= p < pg.len() implies (#[trigger] jgs[p]).len() == jobs.len() && aos[p].len() == jobs.len() by {
        if p < n {
            assert(jgs[p] == job_grids[p]);
            assert(aos[p] == after_occ[p]);
        }
    }
    assert forall|p: int, j: int|
        #![trigger jgs[p][j]]
        0 <= p < pg.len() && 0 <= j < jobs.len() implies {
            &&& same_except_occupancy_and_history(g0, &jgs[p][j])
            &&& jgs[p][j].history@ == pg[p].history@
            &&& jgs[p][j].occupancy@ == exposed_pads(
                g0,
                if j == 0 {
                    zero_occupancy(g0)
                } else {
                    aos[p][j - 1]
                },
                jobs[j].pads@,
            )
            &&& pr[p][jobs[j].net_index as int] matches Some(nr) ==> steiner_found(
                &jgs[p][j],
                jobs[j].pads@,
                jobs[j].clearance_cells as int,
                pass_factor(config, p),
                config.via_cost,
                nr.wires@,
                nr.vias@,
                aos[p][j],
            )
        } by {
        if p < n {
            assert(jgs[p] == job_grids[p]);
            assert(aos[p] == after_occ[p]);
            assert(pg[p] == pass_grids[p]);
            assert(pr[p] == pass_routes[p]);
            assert(job_grids[p][j] == job_grids[p][j]);
        } else {
            assert(jgs[p] == jg);
            assert(aos[p] == ao);
            assert(pg[p] == grid);
            assert(pr[p] == routes);
            assert(jg[j] == jg[j]);
        }
    }
    assert forall|p: int| 0 <= p < pg.len() implies (#[trigger] pg[p]).occupancy@ == if jobs.len() == 0 {
        zero_occupancy(g0)
    } else {
        aos[p][jobs.len() - 1]
    } by {
        if p < n {
            assert(pg[p] == pass_grids[p]);
            assert(aos[p] == after_occ[p]);
        }
    }
}

/// The occupancy that `expose_pads` leaves.
proof fn lemma_exposed_pads(g0: &GridMap, gp: &GridMap, ga: &GridMap, pads: Seq<(usize, usize)>)
    requires
        same_except_occupancy_and_history(g0, gp),
        ga.wf(),
        ga.width == gp.width,
        ga.height == gp.height,
        ga.num_layers == gp.num_layers,
        forall|k: int|
            0 <= k < ga.num_cells() ==> ga.occupancy@[k] == if !gp.is_perm(k) && pad_among(pads, pads.len() as int, gp.cell_x(k), gp.cell_y(k)) {
                0
            } else {
                gp.occupancy@[k]
            },
    ensures
        ga.occupancy@ == exposed_pads(g0, gp.occupancy@, pads),
{
    assert forall|k: int| 0 <= k < ga.occupancy@.len() implies ga.occupancy@[k] == exposed_pads(g0, gp.occupancy@, pads)[k] by {
        assert(g0.is_perm(k) == gp.is_perm(k));
        assert(g0.cell_x(k) == gp.cell_x(k) && g0.cell_y(k) == gp.cell_y(k));
    }
    assert(ga.occupancy@ =~= exposed_pads(g0, gp.occupancy@, pads));
}

/// The PathFinder loop. Every pass clears the occupancy and routes all jobs in
/// order (each net as a Steiner tree) with a present-congestion factor that
/// grows by `present_factor_step` per pass; after each pass, cells used by
/// more than one net get `history_increment` more history cost. The loop stops
/// on the first legal pass (no cell claimed by two nets), or after
/// `max_pf_passes + 1` passes. Gives, per net of the board, the route of the
/// best pass (a legal pass beats an illegal one; between equals, more routed
/// nets win; between those, the earlier pass), and the progress reports in
/// the order in which they are handed to `tx` (when `tx` is given): per pass,
/// for each job its start and its outcome, then the pass's count; at the end
/// the routes.
#[verifier::spinoff_prover]
#[verifier::rlimit(60)]
pub fn route(
    g: &mut GridMap,
    jobs: &Vec<NetJob>,
    num_nets: usize,
    config: &RouterConfig,
    tx: Option<&SyncSender<ProgressEvent>>,
) -> (r: (Vec<Option<NetRoute>>, Ghost<Seq<ProgressEvent>>))
    requires
        old(g).wf(),
        old(g).width <= i64::MAX,
        old(g).height <= i64::MAX,
        config_fits(&*old(g), config),
        jobs_ok(&*old(g), jobs@, num_nets as int),
    ensures
        same_except_occupancy_and_history(&*old(g), &*final(g)),
        r.0@.len() == num_nets,
        forall|i: int|
            0 <= i < num_nets ==> (#[trigger] r.0@[i] matches Some(nr) ==> exists|j: int|
                0 <= j < jobs@.len() && jobs@[j].net_index == i && routes_net(&*old(g), jobs@[j].pads@, nr)),
        // every net that each pass can route is routed
        forall|j: int| 0 <= j < jobs@.len() && job_routable(&*old(g), (#[trigger] jobs@[j]).pads@) ==> r.0@[jobs@[j].net_index as int] is Some,
        r.1@.len() > 0,
        // the final report carries the routes handed back
        r.1@.last() matches ProgressEvent::Finished { routes } && routes_view(routes@) == routes_view(r.0@),
        exists|
            outcomes: Seq<(bool, int)>,
            routed: Seq<Seq<bool>>,
            logs: Seq<Seq<ProgressEvent>>,
            pass_routes: Seq<Seq<Option<NetRoute>>>,
            pass_grids: Seq<GridMap>,
            job_grids: Seq<Seq<GridMap>>,
            after_occ: Seq<Seq<Seq<u8>>>,
        |
            #![trigger concat_events(logs), best_pass(outcomes), passes_recorded(&*old(g), jobs@, num_nets as int, outcomes, routed, pass_routes, pass_grids), passes_searched(&*old(g), jobs@, config, pass_routes, pass_grids, job_grids, after_occ)]
            {
                // each route of each pass is what routing its job found on that job's grid of
                // that pass, under the pass's present factor and the configured via cost
                &&& passes_searched(&*old(g), jobs@, config, pass_routes, pass_grids, job_grids, after_occ)
                // each pass starts from the history of the one before, its shared cells charged
                &&& pass_grids[0].history@ == old(g).history@
                &&& forall|p: int|
                    0 < p < pass_grids.len() ==> (#[trigger] pass_grids[p]).history@ == history_update(
                        pass_grids[p - 1].history@,
                        pass_grids[p - 1].occupancy@,
                        config.history_increment,
                    )
                &&& final(g).history@ == if outcomes.last().0 {
                    pass_grids.last().history@
                } else {
                    history_update(pass_grids.last().history@, pass_grids.last().occupancy@, config.history_increment)
                }
                // each pass's routes, the grid it left (legal as its outcome says), and its routed jobs
                &&& passes_recorded(&*old(g), jobs@, num_nets as int, outcomes, routed, pass_routes, pass_grids)
                &&& pass_grids.last().occupancy@ == final(g).occupancy@
                // the routes handed back are those of the best pass
                &&& (best_pass(outcomes).0 matches Some(q) ==> r.0@ == pass_routes[q])
                &&& (best_pass(outcomes).0 is None ==> r.0@ == Seq::new(num_nets as nat, |i: int| None::<NetRoute>))
                &&& 1 <= outcomes.len() <= config.max_pf_passes + 1
                &&& routed.len() == logs.len() == outcomes.len()
                // the reports of each pass, in order, then the final report
                &&& r.1@ == concat_events(logs).push(r.1@.last())
                &&& forall|p: int| 0 <= p < outcomes.len() ==> pass_events_ok(#[trigger] logs[p], jobs@, p, routed[p], pass_routes[p])
                &&& forall|p: int| 0 <= p < outcomes.len() ==> (#[trigger] outcomes[p]).1 == count_true(routed[p])
                &&& forall|p: int, j: int|
                    0 <= p < outcomes.len() && 0 <= j < jobs@.len() && job_routable(&*old(g), jobs@[j].pads@) ==> #[trigger] routed[p][j]
                &&& best_pass(outcomes).2 == count_routed(r.0@)
                &&& best_pass(outcomes).0 is None ==> count_routed(r.0@) == 0
                // every pass before the last was illegal
                &&& forall|p: int| 0 <= p < outcomes.len() - 1 ==> !(#[trigger] outcomes[p]).0
                // the loop ran out of passes or the last pass was legal
                &&& (outcomes.len() == config.max_pf_passes + 1 || outcomes.last().0)
                // the last pass's legality is that of the grid handed back
                &&& outcomes.last().0 == final(g).legal()
            },
{
    let ghost g0 = *old(g);
    let total = jobs.len();
    let mut best = none_routes(num_nets);
    let mut best_routed: usize = 0;
    let mut best_is_legal = false;
    let ghost mut outcomes: Seq<(bool, int)> = Seq::empty();
    let ghost mut routed: Seq<Seq<bool>> = Seq::empty();
    let ghost mut logs: Seq<Seq<ProgressEvent>> = Seq::empty();
    let ghost mut pass_routes: Seq<Seq<Option<NetRoute>>> = Seq::empty();
    let ghost mut pass_grids: Seq<GridMap> = Seq::empty();
    let ghost mut job_grids: Seq<Seq<GridMap>> = Seq::empty();
    let ghost mut after_occ: Seq<Seq<Seq<u8>>> = Seq::empty();
    proof {
        lemma_count_none(num_nets as nat);
        reveal(passes_recorded);
        reveal(passes_searched);
    }
    let mut pass: usize = 0;
    loop
        invariant_except_break
            outcomes.len() == pass,
            g.history@ == if pass_grids.len() == 0 {
                g0.history@
            } else {
                history_update(pass_grids.last().history@, pass_grids.last().occupancy@, config.history_increment)
            },
            forall|k: int| 0 <= k < g0.num_cells() ==> #[trigger] g.history@[k] <= g0.history@[k] + pass * config.history_increment,
            forall|p: int| 0 <= p < outcomes.len() ==> !(#[trigger] outcomes[p]).0,
        invariant
            g0 == *old(g),
            same_except_occupancy_and_history(&g0, &*g),
            g0.wf(),
            g0.width <= i64::MAX,
            g0.height <= i64::MAX,
            config_fits(&g0, config),
            jobs_ok(&g0, jobs@, num_nets as int),
            total == jobs@.len(),
            pass <= config.max_pf_passes,
            best@.len() == num_nets,
            best_pass(outcomes) == (best_pass(outcomes).0, best_is_legal, best_routed as int),
            best_routed as int == count_routed(best@),
            best_pass(outcomes).0 is None ==> count_routed(best@) == 0,
            forall|i: int|
                0 <= i < num_nets ==> (#[trigger] best@[i] matches Some(nr) ==> exists|j: int|
                    0 <= j < jobs@.len() && jobs@[j].net_index == i && routes_net(&g0, jobs@[j].pads@, nr)),
            outcomes.len() > 0 ==> forall|j: int|
                0 <= j < jobs@.len() && job_routable(&g0, (#[trigger] jobs@[j]).pads@) ==> best@[jobs@[j].net_index as int] is Some,
            routed.len() == logs.len() == outcomes.len(),
            forall|p: int| 0 <= p < outcomes.len() ==> pass_events_ok(#[trigger] logs[p], jobs@, p, routed[p], pass_routes[p]),
            forall|p: int| 0 <= p < outcomes.len() ==> (#[trigger] outcomes[p]).1 == count_true(routed[p]),
            forall|p: int, j: int|
                0 <= p < outcomes.len() && 0 <= j < jobs@.len() && job_routable(&g0, jobs@[j].pads@) ==> #[trigger] routed[p][j],
            passes_recorded(&g0, jobs@, num_nets as int, outcomes, routed, pass_routes, pass_grids),
            pass_routes.len() == outcomes.len(),
            pass_grids.len() == outcomes.len(),
            passes_searched(&g0, jobs@, config, pass_routes, pass_grids, job_grids, after_occ),
            pass_grids.len() > 0 ==> pass_grids[0].history@ == g0.history@,
            forall|p: int|
                0 < p < pass_grids.len() ==> (#[trigger] pass_grids[p]).history@ == history_update(
                    pass_grids[p - 1].history@,
                    pass_grids[p - 1].occupancy@,
                    config.history_increment,
                ),
            best_pass(outcomes).0 matches Some(q) ==> best@ == pass_routes[q],
            best_pass(outcomes).0 is None ==> best@ == Seq::new(num_nets as nat, |i: int| None::<NetRoute>),
        ensures
            passes_searched(&g0, jobs@, config, pass_routes, pass_grids, job_grids, after_occ),
            pass_grids.len() > 0 ==> pass_grids[0].history@ == g0.history@,
            forall|p: int|
                0 < p < pass_grids.len() ==> (#[trigger] pass_grids[p]).history@ == history_update(
                    pass_grids[p - 1].history@,
                    pass_grids[p - 1].occupancy@,
                    config.history_increment,
                ),
            g.history@ == if outcomes.last().0 {
                pass_grids.last().history@
            } else {
                history_update(pass_grids.last().history@, pass_grids.last().occupancy@, config.history_increment)
            },
            passes_recorded(&g0, jobs@, num_nets as int, outcomes, routed, pass_routes, pass_grids),
            best_pass(outcomes).0 matches Some(q) ==> best@ == pass_routes[q],
            best_pass(outcomes).0 is None ==> best@ == Seq::new(num_nets as nat, |i: int| None::<NetRoute>),
            pass_grids.len() == outcomes.len(),
            pass_grids.last().occupancy@ == g.occupancy@,
            same_except_occupancy_and_history(&g0, &*g),
            best@.len() == num_nets,
            forall|i: int|
                0 <= i < num_nets ==> (#[trigger] best@[i] matches Some(nr) ==> exists|j: int|
                    0 <= j < jobs@.len() && jobs@[j].net_index == i && routes_net(&g0, jobs@[j].pads@, nr)),
            forall|j: int|
                0 <= j < jobs@.len() && job_routable(&g0, (#[trigger] jobs@[j]).pads@) ==> best@[jobs@[j].net_index as int] is Some,
            1 <= outcomes.len() <= config.max_pf_passes + 1,
            best_pass(outcomes).2 == count_routed(best@),
            best_pass(outcomes).0 is None ==> count_routed(best@) == 0,
            forall|p: int| 0 <= p < outcomes.len() - 1 ==> !(#[trigger] outcomes[p]).0,
            outcomes.len() == config.max_pf_passes + 1 || outcomes.last().0,
            outcomes.last().0 == g.legal(),
            routed.len() == logs.len() == outcomes.len(),
            forall|p: int| 0 <= p < outcomes.len() ==> pass_events_ok(#[trigger] logs[p], jobs@, p, routed[p], pass_routes[p]),
            forall|p: int| 0 <= p < outcomes.len() ==> (#[trigger] outcomes[p]).1 == count_true(routed[p]),
            forall|p: int, j: int|
                0 <= p < outcomes.len() && 0 <= j < jobs@.len() && job_routable(&g0, jobs@[j].pads@) ==> #[trigger] routed[p][j],
        decreases config.max_pf_passes - pass,
    {
        g.reset_occupancy();
        // The present factor grows each pass, so congestion becomes ever more expensive.
        let present_factor = sat_mul_u32_exec((pass as u64 % 0x1_0000_0000u64) as u32, config.present_factor_step);
        proof {
            lemma_pass_costs(&g0, &*g, config, pass as int, present_factor);
        }
        let mut pass_result = none_routes(num_nets);
        let mut routed_count: usize = 0;
        let ghost mut cur: Seq<ProgressEvent> = Seq::empty();
        let ghost mut flags: Seq<bool> = Seq::empty();
        let ghost h_pass = g.history@;
        let ghost mut jg: Seq<GridMap> = Seq::empty();
        let ghost mut ao: Seq<Seq<u8>> = Seq::empty();
        proof {
            lemma_count_none(num_nets as nat);
            reveal(jobs_searched);
            assert(g.occupancy@ =~= zero_occupancy(&g0));
        }
        let mut j: usize = 0;
        while j < total
            invariant
                g0 == *old(g),
                same_except_occupancy_and_history(&g0, &*g),
                g0.wf(),
                g0.width <= i64::MAX,
                g0.height <= i64::MAX,
                config_fits(&g0, config),
                pass <= config.max_pf_passes,
                present_factor == sat_mul_u32((pass as int % 0x1_0000_0000) as u32, config.present_factor_step),
                jobs_ok(&g0, jobs@, num_nets as int),
                total == jobs@.len(),
                j <= total,
                costs_fit_any_occupancy(&*g, present_factor),
                forall|k: int| 0 <= k < g0.num_cells() ==> #[trigger] g.history@[k] <= g0.history@[k] + pass * config.history_increment,
                pass_result@.len() == num_nets,
                routed_count as int == count_routed(pass_result@),
                routed_count <= j,
                forall|i: int|
                    0 <= i < num_nets ==> (#[trigger] pass_result@[i] matches Some(nr) ==> exists|m: int|
                        0 <= m < j && jobs@[m].net_index == i && routes_net(&g0, jobs@[m].pads@, nr)),
                forall|m: int|
                    0 <= m < j && job_routable(&g0, (#[trigger] jobs@[m]).pads@) ==> pass_result@[jobs@[m].net_index as int] is Some,
                cur.len() == 2 * j,
                flags.len() == j,
                routed_count as int == count_true(flags),
                forall|m: int|
                    0 <= m < j ==> job_events_ok(
                        #[trigger] cur[2 * m],
                        cur[2 * m + 1],
                        jobs@[m],
                        m,
                        total as int,
                        flags[m],
                        pass_result@[jobs@[m].net_index as int],
                    ),
                forall|m: int| 0 <= m < j && job_routable(&g0, jobs@[m].pads@) ==> #[trigger] flags[m],
                forall|m: int| 0 <= m < j ==> (#[trigger] flags[m] <==> pass_result@[jobs@[m].net_index as int] is Some),
                g.history@ == h_pass,
                jg.len() == j,
                ao.len() == j,
                jobs_searched(&g0, jobs@, config, pass as int, h_pass, pass_result@, jg, ao),
                g.occupancy@ == if j == 0 {
                    zero_occupancy(&g0)
                } else {
                    ao[j - 1]
                },
            decreases total - j,
        {
            let job = &jobs[j];
            let ev0 = ProgressEvent::StartNet { name: job.name.clone(), idx: j, total };
            let ghost c0 = cur;
            let lg = notify(tx, ev0, Ghost(cur));
            proof {
                cur = lg@;
            }
            assert(jobs_ok(&g0, jobs@, num_nets as int));
            assert(pads_in_grid(&g0, jobs@[j as int].pads@));
            let ghost g_pre = *g;
            g.expose_pads(job.pads.as_slice());
            proof {
                lemma_exposed_pads(&g0, &g_pre, &*g, jobs@[j as int].pads@);
            }
            proof {
                assert(costs_fit_any_occupancy(&*g, present_factor));
            }
            let ghost gb = *g;
            proof {
                lemma_pass_clear(&g0, &gb, config, pass as int, present_factor);
                if job_routable(&g0, jobs@[j as int].pads@) {
                    let pads = jobs@[j as int].pads@;
                    assert forall|k: int| 1 <= k < pads.len() implies reachable(&gb, pads[0], #[trigger] pads[k], present_factor)
                        && pads[k] != pads[0] by {
                        lemma_open_reachable(&g0, &gb, pads[0], pads[k], present_factor);
                    }
                }
            }
            let ghost was_routed: bool;
            let ghost pr_before = pass_result@;
            match route_net_steiner(g, job.pads.as_slice(), config.via_cost, job.clearance_cells, present_factor) {
                Some((wires, vias)) => {
                    let nr = NetRoute { wires, vias };
                    let c = copy_route(&nr);
                    let ev1 = ProgressEvent::NetRouted { name: job.name.clone(), wires: c.wires, vias: c.vias };
                    let lg = notify(tx, ev1, Ghost(cur));
                    proof {
                        cur = lg@;
                        was_routed = true;
                    }
                    proof {
                        assert(routes_net(&gb, jobs@[j as int].pads@, nr));
                        lemma_routes_same_grid(&gb, &g0, jobs@[j as int].pads@, nr);
                        assert(pass_result@[job.net_index as int] is None) by {
                            if pass_result@[job.net_index as int] is Some {
                                let m = choose|m: int| 0 <= m < j && jobs@[m].net_index == job.net_index && routes_net(&g0, jobs@[m].pads@, pass_result@[job.net_index as int]->0);
                                assert(jobs@[m].net_index != jobs@[j as int].net_index);
                            }
                        }
                        lemma_count_update(pass_result@, job.net_index as int, nr);
                    }
                    let ghost before = pass_result@;
                    pass_result.set(job.net_index, Some(nr));
                    routed_count = routed_count + 1;
                    proof {
                        assert forall|i: int| 0 <= i < num_nets implies (#[trigger] pass_result@[i] matches Some(nr2) ==> exists|m: int|
                            0 <= m < j + 1 && jobs@[m].net_index == i && routes_net(&g0, jobs@[m].pads@, nr2)) by {
                            if i != job.net_index as int {
                                assert(pass_result@[i] == before[i]);
                            } else {
                                assert(jobs@[j as int].net_index == i);
                            }
                        }
                        assert forall|m: int| 0 <= m < j + 1 && job_routable(&g0, (#[trigger] jobs@[m]).pads@) implies pass_result@[jobs@[m].net_index as int] is Some by {
                            if m < j && jobs@[m].net_index != job.net_index {
                                assert(pass_result@[jobs@[m].net_index as int] == before[jobs@[m].net_index as int]);
                            }
                        }
                    }
                },
                None => {
                    let ev1 = ProgressEvent::NetFailed { name: job.name.clone() };
                    let lg = notify(tx, ev1, Ghost(cur));
                    proof {
                        cur = lg@;
                        was_routed = false;
                    }
                },
            }
            proof {
                lemma_history_same(&gb, &*g, &g0, config, pass as int, present_factor);
                assert(was_routed ==> pass_result@ == pr_before.update(jobs@[j as int].net_index as int, pass_result@[jobs@[j as int].net_index as int]));
                assert(!was_routed ==> pass_result@ == pr_before);
                let f0 = flags;
                lemma_count_true_push(flags, was_routed);
                flags = flags.push(was_routed);
                assert forall|m: int| 0 <= m < j + 1 implies job_events_ok(
                    #[trigger] cur[2 * m],
                    cur[2 * m + 1],
                    jobs@[m],
                    m,
                    total as int,
                    flags[m],
                    pass_result@[jobs@[m].net_index as int],
                ) by {
                    if m < j {
                        assert(cur[2 * m] == c0[2 * m]);
                        assert(cur[2 * m + 1] == c0[2 * m + 1]);
                        assert(flags[m] == f0[m]);
                        assert(jobs@[m].net_index != jobs@[j as int].net_index);
                        assert(pass_result@[jobs@[m].net_index as int] == pr_before[jobs@[m].net_index as int]);
                    } else {
                        assert(cur[2 * m] == ev0);
                    }
                }
                assert forall|m: int| 0 <= m < j + 1 && job_routable(&g0, jobs@[m].pads@) implies #[trigger] flags[m] by {
                    if m < j {
                        assert(flags[m] == f0[m]);
                    }
                }
                assert forall|m: int| 0 <= m < j + 1 implies (#[trigger] flags[m] <==> pass_result@[jobs@[m].net_index as int] is Some) by {
                    let nj = jobs@[j as int].net_index as int;
                    if m < j {
                        assert(flags[m] == f0[m]);
                        assert(jobs@[m].net_index != jobs@[j as int].net_index);
                        assert(pass_result@[jobs@[m].net_index as int] == pr_before[jobs@[m].net_index as int]);
                    } else if !was_routed {
                        if pr_before[nj] is Some {
                            let mm = choose|mm: int| 0 <= mm < j && jobs@[mm].net_index == nj && routes_net(&g0, jobs@[mm].pads@, pr_before[nj]->0);
                            assert(jobs@[mm].net_index != jobs@[j as int].net_index);
                        }
                    }
                }
                assert(flags[j as int] <==> pass_result@[jobs@[j as int].net_index as int] is Some);
                assert forall|m: int| 0 <= m < jg.len() implies pass_result@[(#[trigger] jobs@[m]).net_index as int]
                    == pr_before[jobs@[m].net_index as int] by {
                    assert(jobs@[m].net_index != jobs@[j as int].net_index);
                }
                assert(present_factor == pass_factor(config, pass as int));
                lemma_job_step(&g0, jobs@, config, pass as int, h_pass, pr_before, jg, ao, pass_result@, gb, g.occupancy@);
                jg = jg.push(gb);
                ao = ao.push(g.occupancy@);
                assert(ao[j as int] == g.occupancy@);
            }
            j = j + 1;
        }
        let legal = g.is_legal();
        let ev_pass = ProgressEvent::PassComplete { pass, routed: routed_count, total };
        let lg = notify(tx, ev_pass, Ghost(cur));
        proof {
            cur = lg@;
        }
        // Keep the best result: legal over illegal; among equals, more nets routed.
        let better = if legal && !best_is_legal {
            true
        } else if legal == best_is_legal {
            routed_count > best_routed
        } else {
            false
        };
        let ghost prev_outcomes = outcomes;
        let ghost prev_routed = routed;
        let ghost prev_logs = logs;
        let ghost prev_pass_routes = pass_routes;
        proof {
            lemma_record_pass(&g0, jobs@, num_nets as int, outcomes, routed, pass_routes, pass_grids, legal, routed_count as int, flags, pass_result@, *g);
            lemma_search_pass(&g0, jobs@, config, pass_routes, pass_grids, job_grids, after_occ, pass_result@, *g, jg, ao);
            job_grids = job_grids.push(jg);
            after_occ = after_occ.push(ao);
            assert(pass_grids.len() > 0 ==> pass_grids.last() == pass_grids[pass_grids.len() - 1]);
            pass_routes = pass_routes.push(pass_result@);
            pass_grids = pass_grids.push(*g);
            assert(pass_grids.last() == *g);
            assert(pass_routes[pass as int] == pass_result@);
            assert forall|q: int| 0 <= q < pass implies #[trigger] pass_routes[q] == prev_pass_routes[q] by {}
            outcomes = outcomes.push((legal, routed_count as int));
            routed = routed.push(flags);
            logs = logs.push(cur);
            assert(outcomes.drop_last() =~= prev_outcomes);
            assert(pass_events_ok(cur, jobs@, pass as int, flags, pass_result@)) by {
                assert forall|m: int| 0 <= m < jobs@.len() implies job_events_ok(
                    #[trigger] cur[2 * m],
                    cur[2 * m + 1],
                    jobs@[m],
                    m,
                    jobs@.len() as int,
                    flags[m],
                    pass_result@[jobs@[m].net_index as int],
                ) by {}
            }
            assert forall|p: int| 0 <= p < outcomes.len() implies pass_events_ok(#[trigger] logs[p], jobs@, p, routed[p], pass_routes[p]) by {
                if p < pass {
                    assert(logs[p] == prev_logs[p]);
                    assert(routed[p] == prev_routed[p]);
                    assert(pass_routes[p] == prev_pass_routes[p]);
                }
            }
            assert forall|p: int| 0 <= p < outcomes.len() implies (#[trigger] outcomes[p]).1 == count_true(routed[p]) by {
                if p < pass {
                    assert(outcomes[p] == prev_outcomes[p]);
                    assert(routed[p] == prev_routed[p]);
                }
            }
            assert forall|p: int, m: int|
                0 <= p < outcomes.len() && 0 <= m < jobs@.len() && job_routable(&g0, jobs@[m].pads@) implies #[trigger] routed[p][m] by {
                if p < pass {
                    assert(routed[p] == prev_routed[p]);
                }
            }
            if !better && pass == 0 {
                // nothing was routed in the first pass, so no job is routable
                assert forall|m: int| 0 <= m < jobs@.len() && job_routable(&g0, (#[trigger] jobs@[m]).pads@) implies best@[jobs@[m].net_index as int] is Some by {
                    lemma_count_true_zero(flags, m);
                }
            }
        }
        let ghost best_before = best@;
        if better {
            best = pass_result;
            best_routed = routed_count;
            best_is_legal = legal;
        }
        proof {
            lemma_best_pass_range(prev_outcomes);
            if better {
                assert(best_pass(outcomes) == (Some(pass as int), legal, routed_count as int));
                assert(best@ == pass_routes[pass as int]);
            } else {
                assert(best_pass(outcomes) == best_pass(prev_outcomes));
                assert(best@ == best_before);
                if best_pass(prev_outcomes).0 is Some {
                    let q = best_pass(prev_outcomes).0->0;
                    assert(pass_routes[q] == prev_pass_routes[q]);
                }
            }
        }
        if legal {
            break;
        }
        let ghost g_upd = *g;
        g.update_history(config.history_increment);
        proof {
            assert(g_upd == pass_grids.last());
            assert(g.history@ =~= history_update(pass_grids.last().history@, pass_grids.last().occupancy@, config.history_increment));
        }
        if pass == config.max_pf_passes {
            break;
        }
        proof {
            assert forall|k: int| 0 <= k < g0.num_cells() implies #[trigger] g.history@[k] <= g0.history@[k] + (pass + 1) * config.history_increment by {
                assert((pass + 1) * config.history_increment == pass * config.history_increment + config.history_increment) by (nonlinear_arith);
            }
            assert forall|p: int| 0 <= p < outcomes.len() implies !(#[trigger] outcomes[p]).0 by {
                if p < pass {
                    assert(outcomes[p] == prev_outcomes[p]);
                }
            }
        }
        pass = pass + 1;
    }
    let ev_end = ProgressEvent::Finished { routes: copy_routes(&best) };
    let log = notify(tx, ev_end, Ghost(concat_events(logs)));
    (best, log)
}

pub open spec fn same_except_occupancy_and_history(a: &GridMap, b: &GridMap) -> bool {
    &&& a.wf()
    &&& b.wf()
    &&& a.width == b.width
    &&& a.height == b.height
    &&& a.num_layers == b.num_layers
    &&& a.layer_names == b.layer_names
    &&& a.perm@ == b.perm@
}

proof fn lemma_pass_costs(g0: &GridMap, g: &GridMap, config: &RouterConfig, pass: int, present_factor: u32)
    requires
        same_except_occupancy_and_history(g0, g),
        config_fits(g0, config),
        0 <= pass <= config.max_pf_passes,
        present_factor == sat_mul_u32((pass % 0x1_0000_0000) as u32, config.present_factor_step),
        forall|k: int| 0 <= k < g0.num_cells() ==> #[trigger] g.history@[k] <= g0.history@[k] + pass * config.history_increment,
    ensures
        costs_fit_any_occupancy(g, present_factor),
{
    let p32 = (pass % 0x1_0000_0000) as u32;
    assert(p32 <= pass);
    assert(p32 as int * config.present_factor_step <= pass * config.present_factor_step) by (nonlinear_arith)
        requires
            0 <= p32 <= pass,
    ;
    assert(pass * config.present_factor_step <= config.max_pf_passes * config.present_factor_step) by (nonlinear_arith)
        requires
            0 <= pass <= config.max_pf_passes,
    ;
    assert(pass * config.history_increment <= config.max_pf_passes * config.history_increment) by (nonlinear_arith)
        requires
            0 <= pass <= config.max_pf_passes,
    ;
    assert(present_factor <= config.max_pf_passes * config.present_factor_step);
    assert(sat_mul_u32(present_factor, 255) <= present_factor * 255) by (nonlinear_arith);
    assert(present_factor * 255 <= config.max_pf_passes * config.present_factor_step * 255) by (nonlinear_arith)
        requires
            present_factor <= config.max_pf_passes * config.present_factor_step,
    ;
    assert forall|k: int| 0 <= k < g.num_cells() && !g.is_perm(k) implies 1 + sat_mul_u32(present_factor, 255) + #[trigger] g.history@[k] <= u32::MAX by {
        assert(g0.is_perm(k) == g.is_perm(k));
        assert(g.history@[k] <= g0.history@[k] + pass * config.history_increment);
        assert(1 + config.max_pf_passes * config.present_factor_step * 255 + g0.history@[k] + config.max_pf_passes * config.history_increment <= u32::MAX);
    }
}

proof fn lemma_history_same(gb: &GridMap, g: &GridMap, g0: &GridMap, config: &RouterConfig, pass: int, present_factor: u32)
    requires
        same_except_occupancy(gb, g),
        same_except_occupancy_and_history(g0, gb),
        costs_fit_any_occupancy(gb, present_factor),
        forall|k: int| 0 <= k < g0.num_cells() ==> #[trigger] gb.history@[k] <= g0.history@[k] + pass * config.history_increment,
    ensures
        same_except_occupancy_and_history(g0, g),
        costs_fit_any_occupancy(g, present_factor),
        forall|k: int| 0 <= k < g0.num_cells() ==> #[trigger] g.history@[k] <= g0.history@[k] + pass * config.history_increment,
{
}
} // verus!

verus! {

/// Whether [`config_fits`] holds.
pub fn check_config(g: &GridMap, config: &RouterConfig) -> (r: bool)
    requires
        g.wf(),
    ensures
        r == config_fits(g, config),
{
    let n: u128 = config.max_pf_passes as u128;
    let step: u128 = config.present_factor_step as u128;
    let inc: u128 = config.history_increment as u128;
    proof {
        assert(n * step <= 0xffff_ffff_ffff_ffff * 0xffff_ffff) by (nonlinear_arith)
            requires
                n <= 0xffff_ffff_ffff_ffff,
                step <= 0xffff_ffff,
        ;
        assert(n * inc <= 0xffff_ffff_ffff_ffff * 0xffff_ffff) by (nonlinear_arith)
            requires
                n <= 0xffff_ffff_ffff_ffff,
                inc <= 0xffff_ffff,
        ;
    }
    let a: u128 = n * step * 255;
    let b: u128 = n * inc;
    let mut k: usize = 0;
    while k < g.history.len()
        invariant
            g.wf(),
            k <= g.num_cells(),
            a == config.max_pf_passes * config.present_factor_step * 255,
            b == config.max_pf_passes * config.history_increment,
            a <= 0xffff_ffff_ffff_ffff * 0xffff_ffff * 255,
            b <= 0xffff_ffff_ffff_ffff * 0xffff_ffff,
            forall|m: int|
                0 <= m < k && !g.is_perm(m) ==> 1 + config.max_pf_passes * config.present_factor_step * 255
                    + #[trigger] g.history@[m] + config.max_pf_passes * config.history_increment < u32::MAX,
        decreases g.num_cells() - k,
    {
        if !g.perm[k] && 1 + a + g.history[k] as u128 + b >= u32::MAX as u128 {
            return false;
        }
        k = k + 1;
    }
    true
}

/// Whether [`jobs_ok`] holds.
pub fn check_jobs(g: &GridMap, jobs: &Vec<NetJob>, num_nets: usize) -> (r: bool)
    ensures
        r == jobs_ok(g, jobs@, num_nets as int),
{
    let mut j: usize = 0;
    while j < jobs.len()
        invariant
            j <= jobs@.len(),
            forall|m: int| 0 <= m < j ==> (#[trigger] jobs@[m]).net_index < num_nets,
            forall|a: int, b: int| 0 <= a < b < j ==> (#[trigger] jobs@[a]).net_index != (#[trigger] jobs@[b]).net_index,
            forall|m: int|
                0 <= m < j ==> pads_in_grid(g, (#[trigger] jobs@[m]).pads@) && pads_small(jobs@[m].pads@)
                    && halo_fits(g, jobs@[m].clearance_cells),
        decreases jobs@.len() - j,
    {
        let job = &jobs[j];
        if job.net_index >= num_nets {
            return false;
        }
        let mut m: usize = 0;
        while m < j
            invariant
                m <= j < jobs@.len(),
                job == jobs@[j as int],
                forall|a: int| 0 <= a < m ==> (#[trigger] jobs@[a]).net_index != job.net_index,
            decreases j - m,
        {
            if jobs[m].net_index == job.net_index {
                return false;
            }
            m = m + 1;
        }
        let mut p: usize = 0;
        while p < job.pads.len()
            invariant
                p <= job.pads@.len(),
                j < jobs@.len(),
                job == jobs@[j as int],
                forall|q: int| 0 <= q < p ==> (#[trigger] job.pads@[q]).0 < g.width && job.pads@[q].1 < g.height
                    && job.pads@[q].0 <= 0x7fff_ffff && job.pads@[q].1 <= 0x7fff_ffff,
            decreases job.pads@.len() - p,
        {
            let (x, y) = job.pads[p];
            if !(x < g.width && y < g.height && x <= 0x7fff_ffff && y <= 0x7fff_ffff) {
                proof {
                    assert(job.pads@[p as int] == (x, y));
                }
                return false;
            }
            p = p + 1;
        }
        let c = job.clearance_cells as u128;
        if !(g.width as u128 + c <= i64::MAX as u128 && g.height as u128 + c <= i64::MAX as u128
            && 2 * c <= i64::MAX as u128) {
            return false;
        }
        j = j + 1;
    }
    true
}

} // verus!
