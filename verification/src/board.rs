use vstd::prelude::*;
use crate::dsn::{Layer, Net, NetClass, Pcb, Text, strs, own};
use crate::sexpr::str_eq;

verus! {

// ─── KiCad layer mapping ────────────────────────────────────────────────────

/// The position of the first layer called `name`.
pub open spec fn layer_pos(layers: Seq<Layer>, name: Text) -> Option<int>
    decreases layers.len(),
{
    if layers.len() == 0 {
        None
    } else {
        match layer_pos(layers.drop_last(), name) {
            Some(p) => Some(p),
            None => if layers.last().name@ == name { Some(layers.len() - 1) } else { None },
        }
    }
}

/// KiCad's name for the DSN layer at `pos` of `n`: the first is `F.Cu`, the
/// last `B.Cu`, the others `In<pos>.Cu` (a single layer is `F.Cu`).
pub open spec fn kicad_name_at(pos: int, n: int) -> Seq<char> {
    if n <= 1 || pos == 0 {
        "F.Cu"@
    } else if pos == n - 1 {
        "B.Cu"@
    } else {
        "In"@ + decimal(pos) + ".Cu"@
    }
}

/// KiCad's layer number for the DSN layer at `pos` of `n`: 0 for the first,
/// 31 for the last, `pos` for the others.
pub open spec fn kicad_id_at(pos: int, n: int) -> int {
    if n <= 1 || pos == 0 {
        0
    } else if pos == n - 1 {
        31
    } else {
        pos
    }
}

/// The decimal digits of a natural number.
pub open spec fn decimal(n: int) -> Seq<char>
    decreases n,
{
    if n < 10 {
        seq![digit_char(n)]
    } else {
        decimal(n / 10) + seq![digit_char(n % 10)]
    }
}

pub open spec fn digit_char(d: int) -> char {
    if d == 0 { '0' }
    else if d == 1 { '1' }
    else if d == 2 { '2' }
    else if d == 3 { '3' }
    else if d == 4 { '4' }
    else if d == 5 { '5' }
    else if d == 6 { '6' }
    else if d == 7 { '7' }
    else if d == 8 { '8' }
    else { '9' }
}

fn digit_char_exec(d: usize) -> (c: char)
    requires
        d < 10,
    ensures
        c == digit_char(d as int),
{
    if d == 0 { '0' }
    else if d == 1 { '1' }
    else if d == 2 { '2' }
    else if d == 3 { '3' }
    else if d == 4 { '4' }
    else if d == 5 { '5' }
    else if d == 6 { '6' }
    else if d == 7 { '7' }
    else if d == 8 { '8' }
    else { '9' }
}

/// Decimal text of a number.
pub fn decimal_string(n: usize) -> (r: String)
    ensures
        r@ == decimal(n as int),
    decreases n,
{
    if n < 10 {
        let mut s = String::new();
        crate::text::push_char(&mut s, digit_char_exec(n));
        assert(s@ =~= seq![digit_char(n as int)]);
        s
    } else {
        let mut s = decimal_string(n / 10);
        crate::text::push_char(&mut s, digit_char_exec(n % 10));
        s
    }
}

fn layer_pos_exec(layers: &[Layer], name: &str) -> (r: Option<usize>)
    ensures
        match r {
            Some(p) => layer_pos(layers@, name@) == Some(p as int),
            None => layer_pos(layers@, name@) is None,
        },
{
    let mut i: usize = 0;
    assert(layers@.take(0) =~= Seq::<Layer>::empty());
    while i < layers.len()
        invariant
            i <= layers@.len(),
            layer_pos(layers@.take(i as int), name@) is None,
        decreases layers@.len() - i,
    {
        assert(layers@.take(i + 1).drop_last() =~= layers@.take(i as int));
        if str_eq(layers[i].name.as_str(), name) {
            proof {
                lemma_layer_pos_prefix(layers@, name@, i as int);
            }
            return Some(i);
        }
        i = i + 1;
    }
    assert(layers@.take(layers@.len() as int) =~= layers@);
    None
}

proof fn lemma_layer_pos_prefix(layers: Seq<Layer>, name: Text, i: int)
    requires
        0 <= i < layers.len(),
        layer_pos(layers.take(i), name) is None,
        layers[i].name@ == name,
    ensures
        layer_pos(layers, name) == Some(i),
    decreases layers.len(),
{
    if i < layers.len() - 1 {
        assert(layers.drop_last().take(i) =~= layers.take(i));
        lemma_layer_pos_prefix(layers.drop_last(), name, i);
    } else {
        assert(layers.drop_last() =~= layers.take(i));
    }
}

/// KiCad's name for the DSN layer `dsn_name`; an unknown layer keeps its name.
pub fn kicad_layer_name(layers: &[Layer], dsn_name: &str) -> (r: String)
    ensures
        r@ == match layer_pos(layers@, dsn_name@) {
            Some(p) => kicad_name_at(p, layers@.len() as int),
            None => dsn_name@,
        },
{
    match layer_pos_exec(layers, dsn_name) {
        Some(pos) => {
            proof {
                lemma_layer_pos_bound(layers@, dsn_name@);
            }
            name_at_exec(pos, layers.len())
        },
        None => own(dsn_name),
    }
}

fn name_at_exec(pos: usize, n: usize) -> (r: String)
    ensures
        r@ == kicad_name_at(pos as int, n as int),
{
    if n <= 1 || pos == 0 {
        own("F.Cu")
    } else if pos == n - 1 {
        own("B.Cu")
    } else {
        let mut s = own("In");
        let d = decimal_string(pos);
        s.append(d.as_str());
        s.append(".Cu");
        s
    }
}

/// KiCad's layer table for the board's layers, in their order: the number and
/// the name of each.
pub fn kicad_layer_table(layers: &[Layer]) -> (r: Vec<(u32, String)>)
    ensures
        r@.len() == layers@.len(),
        forall|p: int|
            0 <= p < layers@.len() ==> (#[trigger] r@[p]).0 == kicad_id_at(p, layers@.len() as int) % 0x1_0000_0000
                && r@[p].1@ == kicad_name_at(p, layers@.len() as int),
{
    let n = layers.len();
    let mut out: Vec<(u32, String)> = Vec::new();
    let mut pos: usize = 0;
    while pos < n
        invariant
            pos <= n,
            n == layers@.len(),
            out@.len() == pos,
            forall|p: int|
                0 <= p < pos ==> (#[trigger] out@[p]).0 == kicad_id_at(p, n as int) % 0x1_0000_0000 && out@[p].1@
                    == kicad_name_at(p, n as int),
        decreases n - pos,
    {
        let id: u32 = if n <= 1 || pos == 0 {
            0
        } else if pos == n - 1 {
            31
        } else {
            (pos as u64 % 0x1_0000_0000u64) as u32
        };
        let name = name_at_exec(pos, n);
        out.push((id, name));
        pos = pos + 1;
    }
    out
}

/// KiCad's layer number for the DSN layer `dsn_name`; 0 for an unknown layer.
/// (A position beyond `u32` is cut to its low 32 bits.)
pub fn kicad_layer_id(layers: &[Layer], dsn_name: &str) -> (r: u32)
    ensures
        r == match layer_pos(layers@, dsn_name@) {
            Some(p) => kicad_id_at(p, layers@.len() as int) % 0x1_0000_0000,
            None => 0,
        },
{
    let n = layers.len();
    match layer_pos_exec(layers, dsn_name) {
        Some(pos) => {
            proof {
                lemma_layer_pos_bound(layers@, dsn_name@);
            }
            if n <= 1 || pos == 0 {
                0
            } else if pos == n - 1 {
                31
            } else {
                (pos as u64 % 0x1_0000_0000u64) as u32
            }
        },
        None => 0,
    }
}

proof fn lemma_layer_pos_bound(layers: Seq<Layer>, name: Text)
    ensures
        layer_pos(layers, name) matches Some(p) ==> 0 <= p < layers.len(),
    decreases layers.len(),
{
    if layers.len() > 0 {
        lemma_layer_pos_bound(layers.drop_last(), name);
    }
}

// ─── Nets ───────────────────────────────────────────────────────────────────

/// KiCad net number of the net called `name`: one more than the position of
/// the last net of that name; 0 for no net or an unknown one.
pub open spec fn net_number(nets: Seq<Net>, name: Option<Text>) -> int
    decreases nets.len(),
{
    match name {
        None => 0,
        Some(n) => if nets.len() == 0 {
            0
        } else if nets.last().name@ == n {
            nets.len() as int
        } else {
            net_number(nets.drop_last(), name)
        },
    }
}

pub fn kicad_net_id(nets: &[Net], name: &Option<String>) -> (r: usize)
    ensures
        r == net_number(nets@, crate::dsn::opt_str(*name)),
{
    match name {
        None => 0,
        Some(n) => {
            let mut k = nets.len();
            assert(nets@.take(k as int) =~= nets@);
            while k > 0
                invariant
                    k <= nets@.len(),
                    *name == Some(*n),
                    net_number(nets@, Some(n@)) == net_number(nets@.take(k as int), Some(n@)),
                decreases k,
            {
                assert(nets@.take(k as int).last() == nets@[k - 1]);
                if str_eq(nets[k - 1].name.as_str(), n.as_str()) {
                    return k;
                }
                assert(nets@.take(k as int).drop_last() =~= nets@.take(k - 1));
                k = k - 1;
            }
            0
        },
    }
}

/// Whether one of `names` is `name`.
pub fn contains_name(names: &Vec<String>, name: &str) -> (r: bool)
    ensures
        r == strs(names@).contains(name@),
{
    let mut i: usize = 0;
    while i < names.len()
        invariant
            i <= names@.len(),
            forall|j: int| 0 <= j < i ==> names@[j]@ != name@,
        decreases names@.len() - i,
    {
        if str_eq(names[i].as_str(), name) {
            assert(strs(names@)[i as int] == name@);
            return true;
        }
        i = i + 1;
    }
    proof {
        if strs(names@).contains(name@) {
            let j = choose|j: int| 0 <= j < strs(names@).len() && strs(names@)[j] == name@;
            assert(names@[j]@ == name@);
        }
    }
    false
}

/// The first class that lists the net `name`.
pub open spec fn class_of(classes: Seq<NetClass>, name: Text) -> Option<int>
    decreases classes.len(),
{
    if classes.len() == 0 {
        None
    } else {
        match class_of(classes.drop_last(), name) {
            Some(c) => Some(c),
            None => if strs(classes.last().nets@).contains(name) { Some(classes.len() - 1) } else { None },
        }
    }
}

/// The position of the first net class that lists the net `net_name`.
pub fn net_class_of(classes: &[NetClass], net_name: &str) -> (r: Option<usize>)
    ensures
        match r {
            Some(c) => class_of(classes@, net_name@) == Some(c as int),
            None => class_of(classes@, net_name@) is None,
        },
{
    let mut i: usize = 0;
    assert(classes@.take(0) =~= Seq::<NetClass>::empty());
    while i < classes.len()
        invariant
            i <= classes@.len(),
            class_of(classes@.take(i as int), net_name@) is None,
        decreases classes@.len() - i,
    {
        assert(classes@.take(i + 1).drop_last() =~= classes@.take(i as int));
        assert(classes@.take(i + 1).last() == classes@[i as int]);
        if contains_name(&classes[i].nets, net_name) {
            proof {
                lemma_class_of_prefix(classes@, net_name@, i as int);
            }
            return Some(i);
        }
        i = i + 1;
    }
    assert(classes@.take(classes@.len() as int) =~= classes@);
    None
}

proof fn lemma_class_of_prefix(classes: Seq<NetClass>, name: Text, i: int)
    requires
        0 <= i < classes.len(),
        class_of(classes.take(i), name) is None,
        strs(classes[i].nets@).contains(name),
    ensures
        class_of(classes, name) == Some(i),
    decreases classes.len(),
{
    if i < classes.len() - 1 {
        assert(classes.drop_last().take(i) =~= classes.take(i));
        lemma_class_of_prefix(classes.drop_last(), name, i);
    } else {
        assert(classes.drop_last() =~= classes.take(i));
    }
}

/// The nets that already carry a wire of the board's wiring.
pub open spec fn pre_routed(pcb: &Pcb, name: Text) -> bool {
    exists|w: int| 0 <= w < pcb.wiring.wires@.len() && crate::dsn::opt_str(#[trigger] pcb.wiring.wires@[w].net) == Some(name)
}

/// For each net of the board, whether the router should route it: it has at
/// least two pins and no wire of the board carries it yet.
pub fn routable_nets(pcb: &Pcb) -> (r: Vec<bool>)
    ensures
        r@.len() == pcb.network.nets@.len(),
        forall|i: int|
            0 <= i < r@.len() ==> #[trigger] r@[i] == (!pre_routed(pcb, pcb.network.nets@[i].name@)
                && pcb.network.nets@[i].pins@.len() >= 2),
{
    let mut out: Vec<bool> = Vec::new();
    let mut i: usize = 0;
    while i < pcb.network.nets.len()
        invariant
            i <= pcb.network.nets@.len(),
            out@.len() == i,
            forall|k: int|
                0 <= k < i ==> #[trigger] out@[k] == (!pre_routed(pcb, pcb.network.nets@[k].name@)
                    && pcb.network.nets@[k].pins@.len() >= 2),
        decreases pcb.network.nets@.len() - i,
    {
        let net = &pcb.network.nets[i];
        let mut routed = false;
        let mut w: usize = 0;
        while w < pcb.wiring.wires.len()
            invariant
                w <= pcb.wiring.wires@.len(),
                net == pcb.network.nets@[i as int],
                routed == exists|v: int| 0 <= v < w && crate::dsn::opt_str(#[trigger] pcb.wiring.wires@[v].net) == Some(net.name@),
            decreases pcb.wiring.wires@.len() - w,
        {
            match &pcb.wiring.wires[w].net {
                Some(n) => {
                    if str_eq(n.as_str(), net.name.as_str()) {
                        routed = true;
                    }
                },
                None => {},
            }
            proof {
                if routed {
                    if !(exists|v: int| 0 <= v < w && crate::dsn::opt_str(#[trigger] pcb.wiring.wires@[v].net) == Some(net.name@)) {
                        assert(crate::dsn::opt_str(pcb.wiring.wires@[w as int].net) == Some(net.name@));
                    }
                }
            }
            w = w + 1;
        }
        out.push(!routed && net.pins.len() >= 2);
        i = i + 1;
    }
    out
}

// ─── Design-rule defaults ───────────────────────────────────────────────────

/// The board-wide wire width, clearance (as text) and via padstack.
pub struct DrcParams {
    pub default_width: String,
    pub default_clearance: String,
    pub default_via: String,
}

/// Width of the board's first rule (`200` without rules), the first
/// clearance of that rule (`200` without one), and the first via padstack
/// (empty without one).
pub fn compute_drc(pcb: &Pcb) -> (r: DrcParams)
    ensures
        r.default_width@ == if pcb.structure.rules@.len() > 0 {
            pcb.structure.rules@[0].width@
        } else {
            "200"@
        },
        r.default_clearance@ == if pcb.structure.rules@.len() > 0
            && pcb.structure.rules@[0].clearances@.len() > 0 {
            pcb.structure.rules@[0].clearances@[0].0@
        } else {
            "200"@
        },
        r.default_via@ == if pcb.structure.vias@.len() > 0 {
            pcb.structure.vias@[0]@
        } else {
            ""@
        },
{
    let rules = &pcb.structure.rules;
    let default_width = if rules.len() > 0 { rules[0].width.clone() } else { own("200") };
    let default_clearance = if rules.len() > 0 && rules[0].clearances.len() > 0 {
        rules[0].clearances[0].0.clone()
    } else {
        own("200")
    };
    let default_via = if pcb.structure.vias.len() > 0 { pcb.structure.vias[0].clone() } else { own("") };
    DrcParams { default_width, default_clearance, default_via }
}

} // verus!
