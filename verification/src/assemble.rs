use vstd::prelude::*;
use crate::dsn::{Wire, WireV, PlacedVia, PlacedViaV, Wiring, str_pairs};

verus! {

/// One routed wire of a net, with its points already in board coordinates.
pub struct RoutedPath {
    pub layer: String,
    pub points: Vec<(String, String)>,
}

/// What the router found for one net, in board coordinates: the net's name,
/// its wire width and via padstack, its wires and its via positions.
pub struct NetWiring {
    pub name: String,
    pub width: String,
    pub via_padstack: String,
    pub paths: Vec<RoutedPath>,
    pub vias: Vec<(String, String)>,
}

/// The wire that a routed path of net `n` becomes.
pub open spec fn net_wire(n: NetWiring, p: RoutedPath) -> WireV {
    WireV { layer: p.layer@, width: n.width@, path: str_pairs(p.points@), net: Some(n.name@) }
}

/// The via that a via position of net `n` becomes.
pub open spec fn net_via(n: NetWiring, v: (String, String)) -> PlacedViaV {
    PlacedViaV { padstack: n.via_padstack@, x: v.0@, y: v.1@, net: Some(n.name@) }
}

/// The wires of the nets, net after net.
pub open spec fn nets_wires(ns: Seq<NetWiring>) -> Seq<WireV>
    decreases ns.len(),
{
    if ns.len() == 0 {
        Seq::empty()
    } else {
        nets_wires(ns.drop_last()) + ns.last().paths@.map_values(|p: RoutedPath| net_wire(ns.last(), p))
    }
}

/// The vias of the nets, net after net.
pub open spec fn nets_vias(ns: Seq<NetWiring>) -> Seq<PlacedViaV>
    decreases ns.len(),
{
    if ns.len() == 0 {
        Seq::empty()
    } else {
        nets_vias(ns.drop_last()) + ns.last().vias@.map_values(|v: (String, String)| net_via(ns.last(), v))
    }
}

fn clone_points(v: &Vec<(String, String)>) -> (r: Vec<(String, String)>)
    ensures
        str_pairs(r@) == str_pairs(v@),
{
    let mut out: Vec<(String, String)> = Vec::new();
    let mut i: usize = 0;
    while i < v.len()
        invariant
            i <= v@.len(),
            str_pairs(out@) == str_pairs(v@.take(i as int)),
        decreases v@.len() - i,
    {
        let (a, b) = &v[i];
        let ghost before = out@;
        out.push((a.clone(), b.clone()));
        assert(out@ == before.push(v@[i as int]));
        assert(str_pairs(out@) =~= str_pairs(before).push((v@[i as int].0@, v@[i as int].1@)));
        assert(v@.take(i + 1) =~= v@.take(i as int).push(v@[i as int]));
        assert(str_pairs(v@.take(i + 1)) =~= str_pairs(v@.take(i as int)).push((v@[i as int].0@, v@[i as int].1@)));
        i = i + 1;
    }
    assert(v@.take(v@.len() as int) =~= v@);
    out
}

/// The board's own wiring, followed by the wires and vias of each routed net
/// (in the order of `nets`), each tagged with its net's name.
pub fn assemble_wiring(base: Wiring, nets: &Vec<NetWiring>) -> (r: Wiring)
    ensures
        r@.wires == base@.wires + nets_wires(nets@),
        r@.vias == base@.vias + nets_vias(nets@),
{
    let Wiring { wires: mut wires, vias: mut vias } = base;
    let ghost bw = wires@.map_values(|w: Wire| w@);
    let ghost bv = vias@.map_values(|v: PlacedVia| v@);
    let mut i: usize = 0;
    while i < nets.len()
        invariant
            i <= nets@.len(),
            wires@.map_values(|w: Wire| w@) == bw + nets_wires(nets@.take(i as int)),
            vias@.map_values(|v: PlacedVia| v@) == bv + nets_vias(nets@.take(i as int)),
        decreases nets@.len() - i,
    {
        let n = &nets[i];
        let ghost w0 = wires@.map_values(|w: Wire| w@);
        let ghost v0 = vias@.map_values(|v: PlacedVia| v@);
        let mut k: usize = 0;
        while k < n.paths.len()
            invariant
                k <= n.paths@.len(),
                wires@.map_values(|w: Wire| w@) == w0 + n.paths@.take(k as int).map_values(|p: RoutedPath| net_wire(*n, p)),
            decreases n.paths@.len() - k,
        {
            let p = &n.paths[k];
            let w = Wire { layer: p.layer.clone(), width: n.width.clone(), path: clone_points(&p.points), net: Some(n.name.clone()) };
            assert(w@ == net_wire(*n, *p));
            let ghost before = wires@;
            let ghost wv = w@;
            wires.push(w);
            assert(wires@.map_values(|w: Wire| w@) =~= before.map_values(|w: Wire| w@).push(wv));
            assert(n.paths@.take(k + 1).map_values(|p: RoutedPath| net_wire(*n, p)) =~= n.paths@.take(k as int).map_values(
                |p: RoutedPath| net_wire(*n, p),
            ).push(net_wire(*n, n.paths@[k as int])));
            assert(wires@.map_values(|w: Wire| w@) =~= w0 + n.paths@.take(k + 1).map_values(|p: RoutedPath| net_wire(*n, p)));
            k = k + 1;
        }
        let mut m: usize = 0;
        while m < n.vias.len()
            invariant
                m <= n.vias@.len(),
                vias@.map_values(|v: PlacedVia| v@) == v0 + n.vias@.take(m as int).map_values(|v: (String, String)| net_via(*n, v)),
            decreases n.vias@.len() - m,
        {
            let (x, y) = &n.vias[m];
            let v = PlacedVia { padstack: n.via_padstack.clone(), x: x.clone(), y: y.clone(), net: Some(n.name.clone()) };
            assert(v@ == net_via(*n, n.vias@[m as int]));
            let ghost before = vias@;
            let ghost vv = v@;
            vias.push(v);
            assert(vias@.map_values(|v: PlacedVia| v@) =~= before.map_values(|v: PlacedVia| v@).push(vv));
            assert(n.vias@.take(m + 1).map_values(|v: (String, String)| net_via(*n, v)) =~= n.vias@.take(m as int).map_values(
                |v: (String, String)| net_via(*n, v),
            ).push(net_via(*n, n.vias@[m as int])));
            assert(vias@.map_values(|v: PlacedVia| v@) =~= v0 + n.vias@.take(m + 1).map_values(|v: (String, String)| net_via(*n, v)));
            m = m + 1;
        }
        proof {
            assert(n.paths@.take(n.paths@.len() as int) =~= n.paths@);
            assert(n.vias@.take(n.vias@.len() as int) =~= n.vias@);
            let t = nets@.take(i + 1);
            assert(t.drop_last() =~= nets@.take(i as int));
            assert(t.last() == *n);
        }
        i = i + 1;
    }
    assert(nets@.take(nets@.len() as int) =~= nets@);
    Wiring { wires, vias }
}

} // verus!
