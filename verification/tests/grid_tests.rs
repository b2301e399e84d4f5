use dsn_router::grid::GridMap;

fn names(ns: &[&str]) -> Vec<String> {
    ns.iter().map(|n| n.to_string()).collect()
}

#[test]
fn grid_new_is_empty() {
    let g = GridMap::new(3, 2, names(&["F.Cu", "B.Cu"]));
    assert_eq!(g.width, 3);
    assert_eq!(g.height, 2);
    assert_eq!(g.num_layers, 2);
    assert_eq!(g.perm.len(), 12);
    assert!(g.perm.iter().all(|p| !p));
    assert!(g.occupancy.iter().all(|o| *o == 0));
    assert!(g.history.iter().all(|h| *h == 0));
}

#[test]
fn grid_without_layers_has_one_plane() {
    let g = GridMap::new(2, 2, vec![]);
    assert_eq!(g.num_layers, 1);
    assert_eq!(g.occupancy.len(), 4);
}

#[test]
fn grid_flat_index() {
    let g = GridMap::new(3, 2, names(&["F.Cu", "B.Cu"]));
    assert_eq!(g.flat(0, 0, 0), 0);
    assert_eq!(g.flat(2, 0, 0), 2);
    assert_eq!(g.flat(1, 1, 0), 4);
    assert_eq!(g.flat(1, 1, 1), 10);
}

#[test]
fn grid_layer_index() {
    let g = GridMap::new(3, 2, names(&["F.Cu", "B.Cu"]));
    assert_eq!(g.layer_index("B.Cu"), Some(1));
    assert_eq!(g.layer_index("F.Cu"), Some(0));
    assert_eq!(g.layer_index("In1.Cu"), None);
}

#[test]
fn pf_cost_formula() {
    let mut g = GridMap::new(4, 4, names(&["F.Cu", "B.Cu"]));
    let idx = g.flat(2, 1, 1);
    g.occupancy[idx] = 2;
    g.history[idx] = 5;
    assert_eq!(g.pf_cost(2, 1, 1, 3), 1 + 3 * 2 + 5);
    assert_eq!(g.pf_cost(2, 1, 0, 3), 1);
    assert_eq!(g.pf_cost(4, 0, 0, 3), u32::MAX);
    assert_eq!(g.pf_cost(0, 0, 2, 3), u32::MAX);
    g.set_perm(0, 0, 0);
    assert_eq!(g.pf_cost(0, 0, 0, 3), u32::MAX);
}

#[test]
fn reset_makes_grid_legal() {
    let mut g = GridMap::new(3, 3, names(&["F.Cu"]));
    assert!(g.is_legal());
    g.occupancy[4] = 2;
    assert!(!g.is_legal());
    g.history[4] = 7;
    g.reset_occupancy();
    assert!(g.is_legal());
    assert!(g.occupancy.iter().all(|o| *o == 0));
    assert_eq!(g.history[4], 7);
}

#[test]
fn update_history_only_on_shared_cells() {
    let mut g = GridMap::new(3, 1, names(&["F.Cu"]));
    g.occupancy[0] = 2;
    g.occupancy[1] = 1;
    g.history[2] = 4;
    g.history[0] = u32::MAX - 1;
    g.update_history(3);
    assert_eq!(g.history, vec![u32::MAX, 0, 4]);
}

#[test]
fn update_history_after_a_legal_pass_changes_nothing() {
    let mut g = GridMap::new(3, 1, names(&["F.Cu"]));
    g.occupancy[0] = 1;
    g.history[1] = 9;
    g.update_history(5);
    assert_eq!(g.history, vec![0, 9, 0]);
}

#[test]
fn set_perm_ignores_outside_cells() {
    let mut g = GridMap::new(2, 2, names(&["F.Cu"]));
    g.set_perm(2, 0, 0);
    g.set_perm(0, 0, 1);
    assert!(g.perm.iter().all(|p| !p));
    g.set_perm(1, 1, 0);
    assert_eq!(g.perm, vec![false, false, false, true]);
}

#[test]
fn mark_occupancy_claims_a_diamond() {
    let mut g = GridMap::new(5, 5, names(&["F.Cu", "B.Cu"]));
    g.set_perm(3, 2, 0);
    g.mark_occupancy(2, 2, 0, 1);
    let mut expected = vec![0u8; 50];
    for (x, y) in [(2, 2), (1, 2), (2, 1), (2, 3)] {
        expected[y * 5 + x] = 1;
    }
    assert_eq!(g.occupancy, expected);
    g.mark_occupancy(0, 0, 1, 2);
    assert_eq!(g.occupancy[25], 1);
    assert_eq!(g.occupancy[25 + 2], 1);
    assert_eq!(g.occupancy[25 + 5 + 1], 1);
    assert_eq!(g.occupancy[25 + 5 + 2], 0);
}

#[test]
fn mark_occupancy_saturates() {
    let mut g = GridMap::new(1, 1, names(&["F.Cu"]));
    g.occupancy[0] = 255;
    g.mark_occupancy(0, 0, 0, 0);
    assert_eq!(g.occupancy[0], 255);
}

#[test]
fn expose_pads_clears_every_layer() {
    let mut g = GridMap::new(3, 1, names(&["F.Cu", "B.Cu"]));
    for k in 0..6 {
        g.occupancy[k] = 3;
    }
    g.set_perm(1, 0, 1);
    g.expose_pads(&[(1, 0), (7, 0)]);
    assert_eq!(g.occupancy, vec![3, 0, 3, 3, 3, 3]);
}

#[test]
fn mark_rect_perm_blocks_a_rectangle_on_all_layers() {
    let mut g = GridMap::new(4, 3, names(&["F.Cu", "B.Cu"]));
    g.mark_rect_perm(1, 0, 2, 1);
    for l in 0..2 {
        for y in 0..3 {
            for x in 0..4 {
                let inside = (1..=2).contains(&x) && y <= 1;
                assert_eq!(g.perm[g.flat(x, y, l)], inside);
            }
        }
    }
}
