use dsn_router::commit::{commit_path, route_net, simplify_path};
use dsn_router::grid::GridMap;
use dsn_router::router::{check_config, check_jobs, route, NetJob, ProgressEvent, RouterConfig};
use dsn_router::search::{find_path, heuristic, is_goal};
use dsn_router::steiner::route_net_steiner;

fn grid(w: usize, h: usize, layers: &[&str]) -> GridMap {
    GridMap::new(w, h, layers.iter().map(|n| n.to_string()).collect())
}

fn job(net_index: usize, name: &str, pads: &[(usize, usize)], clearance_cells: usize) -> NetJob {
    NetJob { net_index, name: name.to_string(), pads: pads.to_vec(), clearance_cells }
}

#[test]
fn simplify_path_merges_straight_runs() {
    let p = [(0, 0), (1, 0), (2, 0), (2, 1), (2, 2), (3, 3), (4, 4)];
    assert_eq!(simplify_path(&p), vec![(0, 0), (2, 0), (2, 2), (4, 4)]);
}

#[test]
fn simplify_path_keeps_short_paths() {
    assert_eq!(simplify_path(&[]), Vec::<(usize, usize)>::new());
    assert_eq!(simplify_path(&[(3, 4)]), vec![(3, 4)]);
    assert_eq!(simplify_path(&[(3, 4), (9, 9)]), vec![(3, 4), (9, 9)]);
}

#[test]
fn simplify_path_keeps_reversals() {
    assert_eq!(simplify_path(&[(0, 0), (1, 0), (0, 0)]), vec![(0, 0), (1, 0), (0, 0)]);
}

#[test]
fn simplify_path_twice_changes_nothing() {
    let p = [(0, 0), (1, 1), (2, 2), (2, 3), (2, 4), (1, 4), (0, 4), (0, 4)];
    let once = simplify_path(&p);
    assert_eq!(simplify_path(&once), once);
}

#[test]
fn heuristic_and_goal() {
    let targets = vec![(4, 0), (1, 5)];
    assert_eq!(heuristic(&targets, &Some((0, 0, 0))), 4);
    assert_eq!(heuristic(&targets, &Some((2, 4, 1))), 1);
    assert_eq!(heuristic(&targets, &None), 0);
    assert!(is_goal(&targets, &Some((4, 0, 1))));
    assert!(!is_goal(&targets, &Some((4, 1, 0))));
    assert!(!is_goal(&targets, &None));
}

#[test]
fn find_path_along_a_row() {
    let g = grid(5, 1, &["F.Cu"]);
    let p = find_path(&g, &vec![(0, 0, 0)], &vec![(4, 0)], 15, 0).expect("a path");
    assert_eq!(p, vec![(0, 0, 0), (1, 0, 0), (2, 0, 0), (3, 0, 0), (4, 0, 0)]);
}

#[test]
fn find_path_takes_diagonal_steps() {
    let g = grid(4, 4, &["F.Cu"]);
    let p = find_path(&g, &vec![(0, 0, 0)], &vec![(3, 3)], 15, 0).expect("a path");
    assert_eq!(p, vec![(0, 0, 0), (1, 1, 0), (2, 2, 0), (3, 3, 0)]);
}

#[test]
fn find_path_avoids_costly_cells() {
    let mut g = grid(3, 3, &["F.Cu"]);
    let mid = g.flat(1, 1, 0);
    g.history[mid] = 10;
    let p = find_path(&g, &vec![(0, 1, 0)], &vec![(2, 1)], 15, 0).expect("a path");
    assert_eq!(p.len(), 3);
    assert_eq!(p[0], (0, 1, 0));
    assert_eq!(p[2], (2, 1, 0));
    assert_ne!(p[1], (1, 1, 0));
}

#[test]
fn find_path_blocked_by_a_wall() {
    let mut g = grid(3, 3, &["F.Cu"]);
    g.mark_rect_perm(1, 0, 1, 2);
    assert_eq!(find_path(&g, &vec![(0, 1, 0)], &vec![(2, 1)], 15, 0), None);
}

#[test]
fn find_path_changes_layer_around_a_wall() {
    let mut g = grid(3, 1, &["F.Cu", "B.Cu"]);
    g.set_perm(1, 0, 0);
    let p = find_path(&g, &vec![(0, 0, 0)], &vec![(2, 0)], 15, 0).expect("a path");
    assert_eq!(p.first(), Some(&(0, 0, 0)));
    assert_eq!((p.last().unwrap().0, p.last().unwrap().1), (2, 0));
    assert!(p.contains(&(1, 0, 1)));
}

#[test]
fn commit_path_marks_cells_and_splits_layers() {
    let mut g = grid(4, 1, &["F.Cu", "B.Cu"]);
    let path = vec![(0, 0, 0), (1, 0, 0), (1, 0, 1), (2, 0, 1), (3, 0, 1)];
    let r = commit_path(&mut g, &path, 0);
    assert_eq!(r.wires.len(), 2);
    assert_eq!(r.wires[0].layer, 0);
    assert_eq!(r.wires[0].layer_name, "F.Cu");
    assert_eq!(r.wires[0].points, vec![(0, 0), (1, 0)]);
    assert_eq!(r.wires[1].layer, 1);
    assert_eq!(r.wires[1].layer_name, "B.Cu");
    assert_eq!(r.wires[1].points, vec![(1, 0), (3, 0)]);
    assert_eq!(r.via_grid_cells, vec![(1, 0)]);
    assert_eq!(r.path_cells, path);
    assert_eq!(g.occupancy, vec![1, 2, 0, 0, 0, 2, 1, 1]);
}

#[test]
fn route_net_commits_what_it_finds() {
    let mut g = grid(5, 1, &["F.Cu"]);
    let r = route_net(&mut g, &vec![(0, 0, 0)], &vec![(4, 0)], 15, 0, 0).expect("a route");
    assert_eq!(r.wires.len(), 1);
    assert_eq!(r.wires[0].points, vec![(0, 0), (4, 0)]);
    assert!(g.occupancy.iter().all(|o| *o == 1));
}

#[test]
fn route_net_steiner_joins_three_pads() {
    let mut g = grid(5, 5, &["F.Cu"]);
    let (wires, vias) = route_net_steiner(&mut g, &[(0, 0), (4, 4), (4, 0)], 15, 0, 0).expect("a tree");
    assert!(!wires.is_empty());
    assert!(vias.is_empty());
    // the nearer pad (4, 0) is joined first
    assert_eq!(wires[0].points.first(), Some(&(0, 0)));
    assert_eq!(wires[0].points.last(), Some(&(4, 0)));
    for pad in [(0usize, 0usize), (4, 0), (4, 4)] {
        assert!(g.occupancy[g.flat(pad.0, pad.1, 0)] >= 1);
    }
}

#[test]
fn route_net_steiner_claims_the_first_pad_on_every_layer() {
    let mut g = grid(8, 1, &["F.Cu", "B.Cu"]);
    let (wires, vias) = route_net_steiner(&mut g, &[(0, 0), (7, 0)], 15, 0, 0).expect("a tree");
    assert_eq!(wires.len(), 1);
    assert_eq!(wires[0].points, vec![(0, 0), (7, 0)]);
    assert!(vias.is_empty());
    let layer = wires[0].layer;
    assert_eq!(g.occupancy[g.flat(0, 0, layer)], 2);
    assert_eq!(g.occupancy[g.flat(0, 0, 1 - layer)], 1);
    assert_eq!(g.occupancy[g.flat(7, 0, layer)], 1);
    assert!(!g.is_legal());
}

#[test]
fn route_net_steiner_fails_when_a_pad_is_walled_in() {
    let mut g = grid(5, 5, &["F.Cu"]);
    g.mark_rect_perm(3, 0, 3, 4);
    assert!(route_net_steiner(&mut g, &[(0, 0), (4, 4)], 15, 0, 0).is_none());
}

#[test]
fn route_two_nets_on_a_free_board() {
    let mut g = grid(8, 8, &["F.Cu", "B.Cu"]);
    let config = RouterConfig::default_config();
    let jobs = vec![job(0, "A", &[(0, 0), (7, 0)], 0), job(2, "B", &[(0, 7), (7, 7)], 0)];
    assert!(check_config(&g, &config));
    assert!(check_jobs(&g, &jobs, 3));
    let (routes, _) = route(&mut g, &jobs, 3, &config, None);
    assert_eq!(routes.len(), 3);
    assert!(routes[0].is_some());
    assert!(routes[1].is_none());
    assert!(routes[2].is_some());
}

#[test]
fn route_reports_an_unroutable_net() {
    let mut g = grid(5, 5, &["F.Cu"]);
    g.mark_rect_perm(2, 0, 2, 4);
    let config = RouterConfig { via_cost: 15, max_pf_passes: 2, present_factor_step: 2, history_increment: 1 };
    let jobs = vec![job(0, "A", &[(0, 0), (4, 4)], 0)];
    let (routes, _) = route(&mut g, &jobs, 1, &config, None);
    assert!(routes[0].is_none());
}

#[test]
fn check_jobs_rejects_bad_jobs() {
    let g = grid(4, 4, &["F.Cu"]);
    assert!(!check_jobs(&g, &vec![job(1, "A", &[(0, 0)], 0)], 1));
    assert!(!check_jobs(&g, &vec![job(0, "A", &[(0, 0)], 0), job(0, "B", &[(1, 1)], 0)], 2));
    assert!(!check_jobs(&g, &vec![job(0, "A", &[(4, 0)], 0)], 1));
    assert!(!check_jobs(&g, &vec![job(0, "A", &[(0, 0)], usize::MAX)], 1));
    assert!(check_jobs(&g, &vec![job(0, "A", &[(0, 0), (3, 3)], 2)], 1));
}

#[test]
fn check_config_rejects_costs_beyond_u32() {
    let mut g = grid(2, 2, &["F.Cu"]);
    let config = RouterConfig { via_cost: 15, max_pf_passes: 10, present_factor_step: 2, history_increment: 1 };
    assert!(check_config(&g, &config));
    g.history[0] = u32::MAX - 10;
    assert!(!check_config(&g, &config));
    g.set_perm(0, 0, 0);
    assert!(check_config(&g, &config));
}

fn passes_reported(rx: &std::sync::mpsc::Receiver<ProgressEvent>) -> (usize, bool) {
    let mut passes = 0;
    let mut finished = false;
    while let Ok(ev) = rx.try_recv() {
        match ev {
            ProgressEvent::PassComplete { .. } => passes += 1,
            ProgressEvent::Finished { .. } => finished = true,
            _ => {}
        }
    }
    (passes, finished)
}

#[test]
fn route_stops_at_the_first_legal_pass() {
    let mut g = grid(4, 4, &["F.Cu"]);
    let config = RouterConfig { via_cost: 15, max_pf_passes: 5, present_factor_step: 2, history_increment: 1 };
    let (tx, rx) = std::sync::mpsc::sync_channel(1000);
    let (routes, _) = route(&mut g, &vec![], 2, &config, Some(&tx));
    assert_eq!(routes.len(), 2);
    assert!(routes.iter().all(|r| r.is_none()));
    assert_eq!(passes_reported(&rx), (1, true));
}

#[test]
fn route_runs_every_pass_when_no_pass_is_legal() {
    let mut g = grid(6, 1, &["F.Cu"]);
    let config = RouterConfig { via_cost: 15, max_pf_passes: 3, present_factor_step: 2, history_increment: 1 };
    let (tx, rx) = std::sync::mpsc::sync_channel(1000);
    let (routes, _) = route(&mut g, &vec![job(0, "A", &[(0, 0), (5, 0)], 0)], 1, &config, Some(&tx));
    assert!(routes[0].is_some());
    // the first pad of a routed net is claimed twice, so no pass is legal
    assert_eq!(passes_reported(&rx), (4, true));
    assert!(!g.is_legal());
}

#[test]
fn route_reports_each_net_then_each_pass() {
    let mut g = grid(6, 3, &["F.Cu"]);
    let config = RouterConfig { via_cost: 15, max_pf_passes: 1, present_factor_step: 2, history_increment: 1 };
    let (tx, rx) = std::sync::mpsc::sync_channel(1000);
    let jobs = vec![job(0, "A", &[(0, 0), (5, 0)], 0), job(1, "B", &[(0, 2), (0, 2)], 0)];
    let (routes, _) = route(&mut g, &jobs, 2, &config, Some(&tx));
    assert!(routes[0].is_some());
    assert!(routes[1].is_none());
    let mut seen: Vec<String> = Vec::new();
    while let Ok(ev) = rx.try_recv() {
        seen.push(match ev {
            ProgressEvent::StartNet { name, idx, total } => format!("start {name} {idx}/{total}"),
            ProgressEvent::NetRouted { name, .. } => format!("routed {name}"),
            ProgressEvent::NetFailed { name } => format!("failed {name}"),
            ProgressEvent::PassComplete { pass, routed, total } => format!("pass {pass} {routed}/{total}"),
            ProgressEvent::Finished { routes: carried } => {
                assert_eq!(format!("{carried:?}"), format!("{routes:?}"));
                "finished".to_string()
            }
        });
    }
    let one_pass = |p: usize| {
        vec![
            "start A 0/2".to_string(),
            "routed A".to_string(),
            "start B 1/2".to_string(),
            "failed B".to_string(),
            format!("pass {p} 1/2"),
        ]
    };
    let mut expected = one_pass(0);
    expected.extend(one_pass(1));
    expected.push("finished".to_string());
    assert_eq!(seen, expected);
}
