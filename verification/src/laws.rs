use vstd::prelude::*;
use crate::grid::GridMap;
use crate::search::{State, edge_cost};
use crate::steiner::{dist2, dist_to_tree, tree_of, nearest_first, greedy_step, pads_small};
use crate::commit::{mark_all, mark_seq, via_layers};
use crate::sexpr::{Tree, tree_tag, tree_children, atom_texts};
use crate::dsn::{
    ShapeV, StructureV, PlacedComponentV, PinV, structure_fold, first_outline, spec_shape, spec_place, empty_structure,
    structure_step, spec_pin, spec_via, atoms_of,
};

verus! {

// ─── The search's moves ──────────────────────────────────────────────────────

/// A via, a move to the same position on the layer above or below, costs the
/// via cost on top of the PathFinder cost of the cell it enters (saturating at
/// `u32::MAX`).
pub proof fn law_via_move_cost(
    g: &GridMap,
    sources: Seq<State>,
    x: usize,
    y: usize,
    l: usize,
    l2: usize,
    present_factor: u32,
    via_cost: u32,
)
    requires
        x < g.width,
        y < g.height,
        l < g.num_layers,
        l2 < g.num_layers,
        l2 == l + 1 || l == l2 + 1,
        g.spec_pf_cost(x as int, y as int, l2 as int, present_factor) < u32::MAX,
    ensures
        edge_cost(g, sources, Some((x, y, l)), Some((x, y, l2)), present_factor, via_cost) == Some(
            if via_cost + g.spec_pf_cost(x as int, y as int, l2 as int, present_factor) > u32::MAX {
                u32::MAX
            } else {
                (via_cost + g.spec_pf_cost(x as int, y as int, l2 as int, present_factor)) as u32
            },
        ),
{
}

/// A move within a layer to one of the eight neighbours costs the PathFinder
/// cost of the cell it enters, half as much again for a diagonal move
/// (saturating at `u32::MAX`), whatever the via cost.
pub proof fn law_layer_move_cost(
    g: &GridMap,
    sources: Seq<State>,
    x: usize,
    y: usize,
    x2: usize,
    y2: usize,
    l: usize,
    present_factor: u32,
    via_cost: u32,
)
    requires
        x2 < g.width,
        y2 < g.height,
        -1 <= x2 - x <= 1,
        -1 <= y2 - y <= 1,
        x2 != x || y2 != y,
        g.spec_pf_cost(x2 as int, y2 as int, l as int, present_factor) < u32::MAX,
    ensures
        ({
            let c = g.spec_pf_cost(x2 as int, y2 as int, l as int, present_factor);
            edge_cost(g, sources, Some((x, y, l)), Some((x2, y2, l)), present_factor, via_cost) == Some(
                if x2 != x && y2 != y {
                    if c + c / 2 > u32::MAX {
                        u32::MAX
                    } else {
                        (c + c / 2) as u32
                    }
                } else {
                    c
                },
            )
        }),
{
}

// ─── Joining pads nearest first ──────────────────────────────────────────────

proof fn lemma_tree_distance(tree: Seq<(usize, usize)>, t: (usize, usize))
    requires
        tree.len() > 0,
        pads_small(tree),
        t.0 <= 0x7fff_ffff && t.1 <= 0x7fff_ffff,
    ensures
        forall|u: int| 0 <= u < tree.len() ==> dist_to_tree(tree, t) <= dist2(t, #[trigger] tree[u]),
        exists|v: int| 0 <= v < tree.len() && dist_to_tree(tree, t) == dist2(t, #[trigger] tree[v]),
    decreases tree.len(),
{
    let last = tree.last();
    assert(last == tree[tree.len() - 1]);
    assert(dist2(t, last) <= 0x7fff_ffff * 0x7fff_ffff + 0x7fff_ffff * 0x7fff_ffff) by (nonlinear_arith)
        requires
            0 <= t.0 <= 0x7fff_ffff,
            0 <= t.1 <= 0x7fff_ffff,
            0 <= last.0 <= 0x7fff_ffff,
            0 <= last.1 <= 0x7fff_ffff,
            dist2(t, last) == (t.0 - last.0) * (t.0 - last.0) + (t.1 - last.1) * (t.1 - last.1),
    ;
    if tree.len() == 1 {
        assert(tree.drop_last() =~= Seq::<(usize, usize)>::empty());
        assert(dist_to_tree(tree.drop_last(), t) == i64::MAX as int);
        assert(dist_to_tree(tree, t) == dist2(t, tree[0]));
    } else {
        let rest = tree.drop_last();
        assert forall|q: int| 0 <= q < rest.len() implies (#[trigger] rest[q]).0 <= 0x7fff_ffff && rest[q].1 <= 0x7fff_ffff by {
            assert(rest[q] == tree[q]);
        }
        lemma_tree_distance(rest, t);
        assert forall|u: int| 0 <= u < tree.len() implies dist_to_tree(tree, t) <= dist2(t, #[trigger] tree[u]) by {
            if u < tree.len() - 1 {
                assert(tree[u] == rest[u]);
            }
        }
        let v = choose|v: int| 0 <= v < rest.len() && dist_to_tree(rest, t) == dist2(t, #[trigger] rest[v]);
        if dist2(t, last) < dist_to_tree(rest, t) {
            assert(dist_to_tree(tree, t) == dist2(t, tree[tree.len() - 1]));
        } else {
            assert(rest[v] == tree[v]);
            assert(dist_to_tree(tree, t) == dist2(t, tree[v]));
        }
    }
}

/// Pads are joined nearest first by straight-line distance: the pad joined at
/// step `j` lies, by squared Euclidean distance, at least as close to some pad
/// already in the tree as any pad not yet joined lies to any pad of the tree.
pub proof fn law_nearest_first(pads: Seq<(usize, usize)>, order: Seq<int>, j: int, k: int, u: int)
    requires
        nearest_first(pads, order),
        pads_small(pads),
        pads.len() >= 1,
        0 <= j < order.len(),
        forall|i: int| 0 <= i < order.len() ==> 1 <= #[trigger] order[i] < pads.len(),
        1 <= k < pads.len(),
        !order.take(j).contains(k),
        0 <= u < tree_of(pads, order, j).len(),
    ensures
        exists|v: int|
            #![trigger tree_of(pads, order, j)[v]]
            0 <= v < tree_of(pads, order, j).len() && ({
                let a = pads[order[j]];
                let b = tree_of(pads, order, j)[v];
                let c = pads[k];
                let d = tree_of(pads, order, j)[u];
                (a.0 - b.0) * (a.0 - b.0) + (a.1 - b.1) * (a.1 - b.1) <= (c.0 - d.0) * (c.0 - d.0) + (c.1 - d.1) * (c.1
                    - d.1)
            }),
{
    let tree = tree_of(pads, order, j);
    assert(greedy_step(pads, order, j));
    assert forall|q: int| 0 <= q < tree.len() implies (#[trigger] tree[q]).0 <= 0x7fff_ffff && tree[q].1 <= 0x7fff_ffff by {
        if q > 0 {
            assert(tree[q] == pads[order.take(j)[q - 1]]);
            assert(order.take(j)[q - 1] == order[q - 1]);
        } else {
            assert(tree[0] == pads[0]);
        }
    }
    let a = pads[order[j]];
    let c = pads[k];
    lemma_tree_distance(tree, a);
    lemma_tree_distance(tree, c);
    let v = choose|v: int| 0 <= v < tree.len() && dist_to_tree(tree, a) == dist2(a, #[trigger] tree[v]);
    assert(dist_to_tree(tree, a) <= dist_to_tree(tree, pads[k]));
    assert(dist_to_tree(tree, c) <= dist2(c, tree[u]));
    assert(dist2(a, tree[v]) <= dist2(c, tree[u]));
}

/// The squared distance that orders the pads is the squared Euclidean one: it
/// is symmetric, zero from a pad to itself, and grows with each coordinate's
/// difference.
pub proof fn law_pad_distance(a: (usize, usize), b: (usize, usize))
    ensures
        dist2(a, b) == dist2(b, a),
        dist2(a, a) == 0,
        dist2(a, b) == (a.0 - b.0) * (a.0 - b.0) + (a.1 - b.1) * (a.1 - b.1),
        dist2(a, b) >= (a.0 - b.0) * (a.0 - b.0),
        dist2(a, b) >= (a.1 - b.1) * (a.1 - b.1),
{
    assert((a.0 - b.0) * (a.0 - b.0) == (b.0 - a.0) * (b.0 - a.0)) by (nonlinear_arith);
    assert((a.1 - b.1) * (a.1 - b.1) == (b.1 - a.1) * (b.1 - a.1)) by (nonlinear_arith);
    assert((a.0 - b.0) * (a.0 - b.0) >= 0) by (nonlinear_arith);
    assert((a.1 - b.1) * (a.1 - b.1) >= 0) by (nonlinear_arith);
}

// ─── Claims of a committed path ──────────────────────────────────────────────

/// Each via position stands once on every layer of the grid, via by via.
pub proof fn law_via_layers(vias: Seq<(usize, usize)>, n: nat, i: int, l: int)
    requires
        0 <= i < vias.len(),
        0 <= l < n,
    ensures
        via_layers(vias, n).len() == vias.len() * n,
        via_layers(vias, n)[i * n + l] == (vias[i].0, vias[i].1, l as usize),
    decreases vias.len(),
{
    lemma_via_layers_len(vias, n);
    let pre = vias.drop_last();
    lemma_via_layers_len(pre, n);
    assert(via_layers(vias, n) == via_layers(pre, n) + Seq::new(n, |m: int| (vias.last().0, vias.last().1, m as usize)));
    if i < vias.len() - 1 {
        assert(pre[i] == vias[i]);
        law_via_layers(pre, n, i, l);
        assert(i * n + l < pre.len() * n) by (nonlinear_arith)
            requires
                0 <= i < pre.len(),
                0 <= l < n,
        ;
    } else {
        assert(i * n == pre.len() * n);
        assert(vias.last() == vias[i]);
    }
}

proof fn lemma_via_layers_len(vias: Seq<(usize, usize)>, n: nat)
    ensures
        via_layers(vias, n).len() == vias.len() * n,
    decreases vias.len(),
{
    if vias.len() > 0 {
        lemma_via_layers_len(vias.drop_last(), n);
        assert((vias.len() - 1) * n + n == vias.len() * n) by (nonlinear_arith);
    }
}

proof fn lemma_mark_all_grows(g: &GridMap, occ: Seq<u8>, cells: Seq<State>, radius: int, k: int)
    requires
        0 <= k < occ.len(),
    ensures
        mark_all(g, occ, cells, radius).len() == occ.len(),
        mark_all(g, occ, cells, radius)[k] >= occ[k],
    decreases cells.len(),
{
    if cells.len() > 0 {
        lemma_mark_all_grows(g, occ, cells.drop_last(), radius, k);
    }
}

/// Marking claims every cell marked: a passable cell that is not saturated
/// ends up claimed once more at least.
proof fn lemma_mark_all_claims(g: &GridMap, occ: Seq<u8>, cells: Seq<State>, radius: int, m: int)
    requires
        g.wf(),
        occ.len() == g.num_cells(),
        radius >= 0,
        0 <= m < cells.len(),
        g.in_bounds(cells[m].0 as int, cells[m].1 as int, cells[m].2 as int),
        !g.is_perm(g.idx(cells[m].0 as int, cells[m].1 as int, cells[m].2 as int)),
        occ[g.idx(cells[m].0 as int, cells[m].1 as int, cells[m].2 as int)] < 255,
    ensures
        mark_all(g, occ, cells, radius)[g.idx(cells[m].0 as int, cells[m].1 as int, cells[m].2 as int)] > occ[g.idx(
            cells[m].0 as int,
            cells[m].1 as int,
            cells[m].2 as int,
        )],
    decreases cells.len(),
{
    let c = cells[m];
    let k = g.idx(c.0 as int, c.1 as int, c.2 as int);
    crate::grid::lemma_cell_index(g.width as int, g.height as int, g.num_layers as int, c.0 as int, c.1 as int, c.2 as int);
    let pre = cells.drop_last();
    let before = mark_all(g, occ, pre, radius);
    lemma_mark_all_grows(g, occ, pre, radius, k);
    if m == cells.len() - 1 {
        assert(cells.last() == c);
        assert(g.in_halo(k, c.0 as int, c.1 as int, c.2 as int, radius));
        assert(mark_seq(g, before, c, radius)[k] == crate::grid::sat_add_u8(before[k], 1));
    } else {
        assert(pre[m] == c);
        lemma_mark_all_claims(g, occ, pre, radius, m);
        let d = cells.last();
        assert(mark_seq(g, before, d, radius)[k] >= before[k]);
    }
}

/// Committing a path claims every via position on every layer of the grid:
/// each passable, unsaturated cell at a via position ends up claimed once more
/// at least, on whatever layer it lies.
pub proof fn law_vias_claimed_on_every_layer(
    g: &GridMap,
    occ: Seq<u8>,
    path: Seq<State>,
    vias: Seq<(usize, usize)>,
    radius: int,
    i: int,
    l: usize,
)
    requires
        g.wf(),
        occ.len() == g.num_cells(),
        radius >= 0,
        0 <= i < vias.len(),
        vias[i].0 < g.width,
        vias[i].1 < g.height,
        l < g.num_layers,
        !g.is_perm(g.idx(vias[i].0 as int, vias[i].1 as int, l as int)),
        occ[g.idx(vias[i].0 as int, vias[i].1 as int, l as int)] < 255,
    ensures
        mark_all(g, occ, path + via_layers(vias, g.num_layers as nat), radius)[g.idx(
            vias[i].0 as int,
            vias[i].1 as int,
            l as int,
        )] > occ[g.idx(vias[i].0 as int, vias[i].1 as int, l as int)],
{
    let n = g.num_layers as nat;
    law_via_layers(vias, n, i, l as int);
    let cells = path + via_layers(vias, n);
    let m = path.len() + i * n + l;
    assert(i * n + l < vias.len() * n) by (nonlinear_arith)
        requires
            0 <= i < vias.len(),
            0 <= l < n,
    ;
    assert(cells[m] == via_layers(vias, n)[i * n + l]);
    lemma_mark_all_claims(g, occ, cells, radius, m);
}

// ─── Placement ───────────────────────────────────────────────────────────────

proof fn lemma_atom_texts_concat(a: Seq<Tree>, b: Seq<Tree>)
    ensures
        atom_texts(a + b) == atom_texts(a) + atom_texts(b),
    decreases b.len(),
{
    if b.len() == 0 {
        assert(a + b =~= a);
        assert(atom_texts(a) + atom_texts(b) =~= atom_texts(a));
    } else {
        assert((a + b).drop_last() =~= a + b.drop_last());
        lemma_atom_texts_concat(a, b.drop_last());
    }
}

/// `(place ID X Y SIDE ROTATION ...)` reads as the placement of component
/// `ID` at `X`, `Y` (in that order), on `SIDE`, turned by `ROTATION`.
pub proof fn law_place_fields(
    id: Seq<char>,
    x: Seq<char>,
    y: Seq<char>,
    side: Seq<char>,
    rotation: Seq<char>,
    rest: Seq<Tree>,
)
    ensures
        spec_place(
            Tree::List(
                seq![
                    Tree::Atom("place"@),
                    Tree::Atom(id),
                    Tree::Atom(x),
                    Tree::Atom(y),
                    Tree::Atom(side),
                    Tree::Atom(rotation),
                ] + rest,
            ),
        ) == Some(PlacedComponentV { id, x, y, side, rotation }),
{
    let five = seq![Tree::Atom(id), Tree::Atom(x), Tree::Atom(y), Tree::Atom(side), Tree::Atom(rotation)];
    let t = Tree::List(
        seq![Tree::Atom("place"@), Tree::Atom(id), Tree::Atom(x), Tree::Atom(y), Tree::Atom(side), Tree::Atom(rotation)]
            + rest,
    );
    assert(tree_children(t) =~= five + rest);
    lemma_atom_texts_concat(five, rest);
    assert(five.drop_last() =~= seq![Tree::Atom(id), Tree::Atom(x), Tree::Atom(y), Tree::Atom(side)]);
    assert(five.drop_last().drop_last() =~= seq![Tree::Atom(id), Tree::Atom(x), Tree::Atom(y)]);
    assert(five.drop_last().drop_last().drop_last() =~= seq![Tree::Atom(id), Tree::Atom(x)]);
    assert(five.drop_last().drop_last().drop_last().drop_last() =~= seq![Tree::Atom(id)]);
    assert(five.drop_last().drop_last().drop_last().drop_last().drop_last() =~= Seq::<Tree>::empty());
    assert(atom_texts(Seq::<Tree>::empty()) =~= Seq::<Seq<char>>::empty());
    assert(atom_texts(seq![Tree::Atom(id)]) =~= seq![id]);
    assert(atom_texts(seq![Tree::Atom(id), Tree::Atom(x)]) =~= seq![id, x]);
    assert(atom_texts(seq![Tree::Atom(id), Tree::Atom(x), Tree::Atom(y)]) =~= seq![id, x, y]);
    assert(atom_texts(seq![Tree::Atom(id), Tree::Atom(x), Tree::Atom(y), Tree::Atom(side)]) =~= seq![id, x, y, side]);
    assert(atom_texts(five) =~= seq![id, x, y, side, rotation]);
}

// ─── Structure ───────────────────────────────────────────────────────────────

/// The shape a structure item contributes as a keepout: a `keepout` item's
/// first outline, when it can be read.
pub open spec fn keepout_of(it: Tree) -> Option<ShapeV> {
    if tree_tag(it) == "keepout"@ {
        match first_outline(tree_children(it)) {
            Some(c) => spec_shape(c),
            None => None,
        }
    } else {
        None
    }
}

/// The keepouts of a structure are, in order, the readable shapes of its
/// `keepout` items; no other item adds or drops one.
pub proof fn law_structure_keepouts(items: Seq<Tree>)
    ensures
        structure_fold(items).keepouts == items.filter_map(|it: Tree| keepout_of(it)),
    decreases items.len(),
{
    reveal_strlit("keepout");
    reveal_strlit("layer");
    reveal_strlit("boundary");
    reveal_strlit("via");
    reveal_strlit("rule");
    reveal_strlit("plane");
    if items.len() == 0 {
        assert(items.filter_map(|it: Tree| keepout_of(it)) =~= Seq::<ShapeV>::empty());
    } else {
        law_structure_keepouts(items.drop_last());
        let it = items.last();
        let s = structure_fold(items.drop_last());
        assert(structure_fold(items) == structure_step(s, it));
        let tag = tree_tag(it);
        if tag == "keepout"@ {
            assert("keepout"@.len() == 7 && "layer"@.len() == 5 && "boundary"@.len() == 8);
            assert("via"@.len() == 3 && "rule"@.len() == 4);
            assert(tag != "layer"@ && tag != "boundary"@ && tag != "via"@ && tag != "rule"@);
            match keepout_of(it) {
                Some(sh) => {},
                None => {},
            }
        } else {
            assert(keepout_of(it) is None);
            assert(structure_step(s, it).keepouts == s.keepouts);
        }
    }
}


// ─── Field order of other items ──────────────────────────────────────────────

/// The atoms of a list written as a tag, the atoms `texts`, then `rest`.
proof fn lemma_atoms_of_list(tag: Seq<char>, texts: Seq<Seq<char>>, rest: Seq<Tree>)
    ensures
        atoms_of(Tree::List(seq![Tree::Atom(tag)] + texts.map_values(|s: Seq<char>| Tree::Atom(s)) + rest)) == texts
            + atom_texts(rest),
{
    let atoms = texts.map_values(|s: Seq<char>| Tree::Atom(s));
    assert(tree_children(Tree::List(seq![Tree::Atom(tag)] + atoms + rest)) =~= atoms + rest);
    lemma_atom_texts_concat(atoms, rest);
    lemma_atom_texts_atoms(texts);
}

proof fn lemma_atom_texts_atoms(texts: Seq<Seq<char>>)
    ensures
        atom_texts(texts.map_values(|s: Seq<char>| Tree::Atom(s))) == texts,
    decreases texts.len(),
{
    let atoms = texts.map_values(|s: Seq<char>| Tree::Atom(s));
    if texts.len() == 0 {
        assert(atom_texts(atoms) =~= texts);
    } else {
        lemma_atom_texts_atoms(texts.drop_last());
        assert(atoms.drop_last() =~= texts.drop_last().map_values(|s: Seq<char>| Tree::Atom(s)));
        assert(atom_texts(atoms) =~= texts);
    }
}

/// `(rect LAYER X1 Y1 X2 Y2 ...)` reads as the rectangle on `LAYER` with
/// corners (`X1`, `Y1`) and (`X2`, `Y2`).
pub proof fn law_rect_fields(
    layer: Seq<char>,
    x1: Seq<char>,
    y1: Seq<char>,
    x2: Seq<char>,
    y2: Seq<char>,
    rest: Seq<Tree>,
)
    ensures
        spec_shape(
            Tree::List(
                seq![
                    Tree::Atom("rect"@),
                    Tree::Atom(layer),
                    Tree::Atom(x1),
                    Tree::Atom(y1),
                    Tree::Atom(x2),
                    Tree::Atom(y2),
                ] + rest,
            ),
        ) == Some(ShapeV::Rect { layer, x1, y1, x2, y2 }),
{
    reveal_strlit("rect");
    reveal_strlit("path");
    reveal_strlit("polyline_path");
    reveal_strlit("qarc");
    reveal_strlit("polygon");
    let texts = seq![layer, x1, y1, x2, y2];
    let t = Tree::List(
        seq![Tree::Atom("rect"@), Tree::Atom(layer), Tree::Atom(x1), Tree::Atom(y1), Tree::Atom(x2), Tree::Atom(y2)]
            + rest,
    );
    assert(seq![Tree::Atom("rect"@)] + texts.map_values(|s: Seq<char>| Tree::Atom(s)) + rest =~= seq![
        Tree::Atom("rect"@),
        Tree::Atom(layer),
        Tree::Atom(x1),
        Tree::Atom(y1),
        Tree::Atom(x2),
        Tree::Atom(y2),
    ] + rest);
    lemma_atoms_of_list("rect"@, texts, rest);
    assert(tree_tag(t) == "rect"@);
    assert("rect"@.len() == 4 && "path"@.len() == 4 && "polyline_path"@.len() == 13 && "qarc"@.len() == 4);
    assert("rect"@ != "path"@) by {
        assert("rect"@[0] != "path"@[0]);
    }
    assert("rect"@ != "qarc"@) by {
        assert("rect"@[0] != "qarc"@[0]);
    }
    assert("polygon"@.len() == 7);
}

/// `(pin PADSTACK NAME X Y ...)` reads as the pin `NAME` with padstack
/// `PADSTACK` at (`X`, `Y`).
pub proof fn law_pin_fields(padstack: Seq<char>, name: Seq<char>, x: Seq<char>, y: Seq<char>, rest: Seq<Tree>)
    ensures
        spec_pin(
            Tree::List(
                seq![Tree::Atom("pin"@), Tree::Atom(padstack), Tree::Atom(name), Tree::Atom(x), Tree::Atom(y)] + rest,
            ),
        ) == Some(PinV { padstack, name, x, y }),
{
    let texts = seq![padstack, name, x, y];
    assert(seq![Tree::Atom("pin"@)] + texts.map_values(|s: Seq<char>| Tree::Atom(s)) + rest =~= seq![
        Tree::Atom("pin"@),
        Tree::Atom(padstack),
        Tree::Atom(name),
        Tree::Atom(x),
        Tree::Atom(y),
    ] + rest);
    lemma_atoms_of_list("pin"@, texts, rest);
}

/// `(via PADSTACK X Y ...)` reads as a via with padstack `PADSTACK` at
/// (`X`, `Y`).
pub proof fn law_via_fields(padstack: Seq<char>, x: Seq<char>, y: Seq<char>, rest: Seq<Tree>)
    ensures
        spec_via(Tree::List(seq![Tree::Atom("via"@), Tree::Atom(padstack), Tree::Atom(x), Tree::Atom(y)] + rest)) matches Some(v)
            && v.padstack == padstack && v.x == x && v.y == y,
{
    let texts = seq![padstack, x, y];
    assert(seq![Tree::Atom("via"@)] + texts.map_values(|s: Seq<char>| Tree::Atom(s)) + rest =~= seq![
        Tree::Atom("via"@),
        Tree::Atom(padstack),
        Tree::Atom(x),
        Tree::Atom(y),
    ] + rest);
    lemma_atoms_of_list("via"@, texts, rest);
}

// ─── The PathFinder cost ─────────────────────────────────────────────────────

/// A passable cell costs one, plus the present factor for each net that
/// claims it, plus its history; an obstacle or a cell outside the grid costs
/// `u32::MAX`.
pub proof fn law_pathfinder_cost(g: &GridMap, x: int, y: int, l: int, present_factor: u32)
    ensures
        !g.in_bounds(x, y, l) ==> g.spec_pf_cost(x, y, l, present_factor) == u32::MAX,
        g.in_bounds(x, y, l) && g.is_perm(g.idx(x, y, l)) ==> g.spec_pf_cost(x, y, l, present_factor) == u32::MAX,
        g.in_bounds(x, y, l) && !g.is_perm(g.idx(x, y, l)) && 1 + present_factor * g.occupancy@[g.idx(x, y, l)]
            + g.history@[g.idx(x, y, l)] <= u32::MAX ==> g.spec_pf_cost(x, y, l, present_factor) == 1 + present_factor
            * g.occupancy@[g.idx(x, y, l)] + g.history@[g.idx(x, y, l)],
{
    let k = g.idx(x, y, l);
    if g.in_bounds(x, y, l) && !g.is_perm(k) {
        let o = g.occupancy@[k] as u32;
        assert(present_factor * g.occupancy@[k] >= 0) by (nonlinear_arith);
        if 1 + present_factor * g.occupancy@[k] + g.history@[k] <= u32::MAX {
            assert(present_factor * o <= u32::MAX);
        }
    }
}

} // verus!
