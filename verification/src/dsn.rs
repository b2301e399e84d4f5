use vstd::prelude::*;
use crate::sexpr::{SExpr, Tree, tree_tag, tree_children, atom_texts, tagged, is_empty_list, str_eq, views, slice_views};
use crate::reader::{read_file, preprocessed, read_sexprs};

verus! {

// ─── Model ──────────────────────────────────────────────────────────────────
//
// Numbers are kept as the text that stands in the file (or, where the file
// gives none, the text of the default value); turning them into floating point
// values is left to the caller.

pub type Text = Seq<char>;

pub type TextPair = (Text, Text);

pub open spec fn str_pairs(v: Seq<(String, String)>) -> Seq<TextPair> {
    v.map_values(|p: (String, String)| (p.0@, p.1@))
}

pub open spec fn strs(v: Seq<String>) -> Seq<Text> {
    v.map_values(|s: String| s@)
}

pub open spec fn opt_str(o: Option<String>) -> Option<Text> {
    match o {
        Some(s) => Some(s@),
        None => None,
    }
}

#[derive(Debug)]
pub struct Layer {
    pub name: String,
    pub layer_type: String,
    pub index: Option<u32>,
}

pub struct LayerV {
    pub name: Text,
    pub layer_type: Text,
    pub index: Option<u32>,
}

impl View for Layer {
    type V = LayerV;

    open spec fn view(&self) -> LayerV {
        LayerV { name: self.name@, layer_type: self.layer_type@, index: self.index }
    }
}

#[derive(Debug)]
pub enum Shape {
    Path { layer: String, width: String, coords: Vec<(String, String)> },
    Polygon { layer: String, width: String, coords: Vec<(String, String)> },
    Rect { layer: String, x1: String, y1: String, x2: String, y2: String },
    Circle { layer: String, diameter: String, cx: String, cy: String },
}

pub enum ShapeV {
    Path { layer: Text, width: Text, coords: Seq<TextPair> },
    Polygon { layer: Text, width: Text, coords: Seq<TextPair> },
    Rect { layer: Text, x1: Text, y1: Text, x2: Text, y2: Text },
    Circle { layer: Text, diameter: Text, cx: Text, cy: Text },
}

impl View for Shape {
    type V = ShapeV;

    open spec fn view(&self) -> ShapeV {
        match self {
            Shape::Path { layer, width, coords } => ShapeV::Path {
                layer: layer@,
                width: width@,
                coords: str_pairs(coords@),
            },
            Shape::Polygon { layer, width, coords } => ShapeV::Polygon {
                layer: layer@,
                width: width@,
                coords: str_pairs(coords@),
            },
            Shape::Rect { layer, x1, y1, x2, y2 } => ShapeV::Rect {
                layer: layer@,
                x1: x1@,
                y1: y1@,
                x2: x2@,
                y2: y2@,
            },
            Shape::Circle { layer, diameter, cx, cy } => ShapeV::Circle {
                layer: layer@,
                diameter: diameter@,
                cx: cx@,
                cy: cy@,
            },
        }
    }
}

pub open spec fn shapes(v: Seq<Shape>) -> Seq<ShapeV> {
    v.map_values(|s: Shape| s@)
}

pub open spec fn opt_shape(o: Option<Shape>) -> Option<ShapeV> {
    match o {
        Some(s) => Some(s@),
        None => None,
    }
}

#[derive(Debug)]
pub struct RoutingRule {
    pub width: String,
    /// (clearance value, optional type label)
    pub clearances: Vec<(String, Option<String>)>,
}

pub struct RoutingRuleV {
    pub width: Text,
    pub clearances: Seq<(Text, Option<Text>)>,
}

impl View for RoutingRule {
    type V = RoutingRuleV;

    open spec fn view(&self) -> RoutingRuleV {
        RoutingRuleV {
            width: self.width@,
            clearances: self.clearances@.map_values(|c: (String, Option<String>)| (c.0@, opt_str(c.1))),
        }
    }
}

} // verus!

verus! {

// ─── Reading values out of the tree ─────────────────────────────────────────

/// The first atom child of a node.
pub open spec fn first_atom(t: Tree) -> Option<Text> {
    let a = atom_texts(tree_children(t));
    if a.len() > 0 { Some(a[0]) } else { None }
}

/// The atom children of a node.
pub open spec fn atoms_of(t: Tree) -> Seq<Text> {
    atom_texts(tree_children(t))
}

/// The first list child of `t` tagged `tag`.
pub open spec fn first_tagged(t: Tree, tag: Text) -> Option<Tree> {
    let f = tagged(tree_children(t), tag);
    if f.len() > 0 { Some(f[0]) } else { None }
}

/// The first atom of the first child tagged `tag`.
pub open spec fn sub_atom(t: Tree, tag: Text) -> Option<Text> {
    match first_tagged(t, tag) {
        Some(c) => first_atom(c),
        None => None,
    }
}

pub open spec fn text_or(o: Option<Text>, d: Text) -> Text {
    match o {
        Some(s) => s,
        None => d,
    }
}

pub proof fn lemma_tagged_tags(items: Seq<Tree>, tag: Text)
    ensures
        forall|i: int| 0 <= i < tagged(items, tag).len() ==> tree_tag(#[trigger] tagged(items, tag)[i]) == tag,
    decreases items.len(),
{
    if items.len() > 0 {
        lemma_tagged_tags(items.drop_last(), tag);
        let pre = tagged(items.drop_last(), tag);
        assert forall|i: int| 0 <= i < tagged(items, tag).len() implies tree_tag(#[trigger] tagged(items, tag)[i]) == tag by {
            if i < pre.len() {
                assert(tagged(items, tag)[i] == pre[i]);
            }
        }
    }
}

pub proof fn lemma_tag_nonempty(t: Tree)
    requires
        tree_tag(t).len() > 0,
    ensures
        !is_empty_list(t),
{
}

/// `String` copy of a `&str`.
pub fn own(s: &str) -> (r: String)
    ensures
        r@ == s@,
{
    String::from_str(s)
}

/// The first atom child of a node, as a string.
pub fn first_atom_exec(e: &SExpr) -> (r: Option<String>)
    requires
        !is_empty_list(e@),
    ensures
        opt_str(r) == first_atom(e@),
{
    let atoms = e.atom_children();
    if atoms.len() > 0 {
        proof {
            assert(atoms@.map_values(|s: &str| s@)[0] == atoms@[0]@);
        }
        Some(own(atoms[0]))
    } else {
        None
    }
}

/// The atom children of a node, as strings.
pub fn atoms_exec(e: &SExpr) -> (r: Vec<String>)
    requires
        !is_empty_list(e@),
    ensures
        strs(r@) == atoms_of(e@),
{
    let atoms = e.atom_children();
    let mut out: Vec<String> = Vec::new();
    let mut i: usize = 0;
    while i < atoms.len()
        invariant
            i <= atoms@.len(),
            strs(out@) == atoms@.map_values(|s: &str| s@).take(i as int),
        decreases atoms@.len() - i,
    {
        let s = own(atoms[i]);
        assert(atoms@.map_values(|s: &str| s@)[i as int] == s@);
        let ghost before = strs(out@);
        out.push(s);
        assert(strs(out@) =~= before.push(atoms@.map_values(|s: &str| s@)[i as int]));
        assert(strs(out@) =~= atoms@.map_values(|s: &str| s@).take(i + 1));
        i = i + 1;
    }
    assert(atoms@.map_values(|s: &str| s@).take(atoms@.len() as int) =~= atoms@.map_values(|s: &str| s@));
    out
}

pub fn first_tagged_exec<'a>(e: &'a SExpr, tag: &str) -> (r: Option<&'a SExpr>)
    requires
        !is_empty_list(e@),
        tag@.len() > 0,
    ensures
        match r {
            Some(c) => first_tagged(e@, tag@) == Some(c@) && !is_empty_list(c@),
            None => first_tagged(e@, tag@) is None,
        },
{
    proof {
        lemma_tagged_tags(tree_children(e@), tag@);
    }
    e.find_first(tag)
}

pub fn sub_atom_exec(e: &SExpr, tag: &str) -> (r: Option<String>)
    requires
        !is_empty_list(e@),
        tag@.len() > 0,
    ensures
        opt_str(r) == sub_atom(e@, tag@),
{
    match first_tagged_exec(e, tag) {
        Some(c) => first_atom_exec(c),
        None => None,
    }
}

// ─── Coordinates and shapes ─────────────────────────────────────────────────

/// Consecutive pairs of atoms; an odd last atom is dropped.
pub open spec fn coord_pairs(a: Seq<Text>) -> Seq<TextPair>
    decreases a.len(),
{
    if a.len() < 2 {
        Seq::empty()
    } else {
        seq![(a[0], a[1])] + coord_pairs(a.skip(2))
    }
}

/// Pairs `atoms[from..]` up as coordinates.
pub fn parse_coords(atoms: &Vec<String>, from: usize) -> (r: Vec<(String, String)>)
    requires
        from <= atoms@.len(),
    ensures
        str_pairs(r@) == coord_pairs(strs(atoms@).skip(from as int)),
{
    let mut out: Vec<(String, String)> = Vec::new();
    let mut i = from;
    let ghost a = strs(atoms@);
    assert(str_pairs(out@) + coord_pairs(a.skip(i as int)) =~= coord_pairs(a.skip(from as int)));
    while i < atoms.len() && i + 1 < atoms.len()
        invariant
            from <= i <= atoms@.len(),
            a == strs(atoms@),
            str_pairs(out@) + coord_pairs(a.skip(i as int)) == coord_pairs(a.skip(from as int)),
        decreases atoms@.len() - i,
    {
        let x = atoms[i].clone();
        let y = atoms[i + 1].clone();
        let ghost before = str_pairs(out@);
        out.push((x, y));
        proof {
            let s = a.skip(i as int);
            assert(s[0] == x@ && s[1] == y@);
            assert(s.skip(2) =~= a.skip(i + 2));
            assert(str_pairs(out@) =~= before.push((x@, y@)));
            assert(before + coord_pairs(s) == before + (seq![(x@, y@)] + coord_pairs(a.skip(i + 2))));
            assert(before.push((x@, y@)) + coord_pairs(a.skip(i + 2)) =~= before + (seq![(x@, y@)] + coord_pairs(a.skip(i + 2))));
        }
        i = i + 2;
    }
    proof {
        assert(a.skip(i as int).len() < 2);
    }
    out
}


pub open spec fn at_or(a: Seq<Text>, i: int, d: Text) -> Text {
    if 0 <= i < a.len() { a[i] } else { d }
}

/// A shape node: `(path layer width x y ...)` (also `polyline_path`, `qarc`),
/// `(polygon layer width x y ...)`, `(rect layer x1 y1 x2 y2)` or
/// `(circle layer diameter [cx cy])`, read from its atom children.
pub open spec fn spec_shape(t: Tree) -> Option<ShapeV> {
    let tag = tree_tag(t);
    let a = atoms_of(t);
    if tag == "path"@ || tag == "polyline_path"@ || tag == "qarc"@ {
        if a.len() < 2 {
            None
        } else {
            Some(ShapeV::Path { layer: a[0], width: a[1], coords: coord_pairs(a.skip(2)) })
        }
    } else if tag == "polygon"@ {
        if a.len() < 2 {
            None
        } else {
            Some(ShapeV::Polygon { layer: a[0], width: a[1], coords: coord_pairs(a.skip(2)) })
        }
    } else if tag == "rect"@ {
        if a.len() < 5 {
            None
        } else {
            Some(ShapeV::Rect { layer: a[0], x1: a[1], y1: a[2], x2: a[3], y2: a[4] })
        }
    } else if tag == "circle"@ {
        Some(
            ShapeV::Circle {
                layer: at_or(a, 0, ""@),
                diameter: at_or(a, 1, "0"@),
                cx: at_or(a, 2, "0"@),
                cy: at_or(a, 3, "0"@),
            },
        )
    } else {
        None
    }
}

fn at_or_exec(a: &Vec<String>, i: usize, d: &str) -> (r: String)
    ensures
        r@ == at_or(strs(a@), i as int, d@),
{
    if i < a.len() {
        a[i].clone()
    } else {
        own(d)
    }
}

/// Reads a shape node (see [`spec_shape`]).
pub fn parse_shape(expr: &SExpr) -> (r: Option<Shape>)
    ensures
        opt_shape(r) == spec_shape(expr@),
{
    let tag = expr.tag();
    let is_path = str_eq(tag, "path") || str_eq(tag, "polyline_path") || str_eq(tag, "qarc");
    let is_polygon = str_eq(tag, "polygon");
    let is_rect = str_eq(tag, "rect");
    let is_circle = str_eq(tag, "circle");
    if !(is_path || is_polygon || is_rect || is_circle) {
        return None;
    }
    proof {
        reveal_strlit("path");
        reveal_strlit("polyline_path");
        reveal_strlit("qarc");
        reveal_strlit("polygon");
        reveal_strlit("rect");
        reveal_strlit("circle");
        lemma_tag_nonempty(expr@);
    }
    let atoms = atoms_exec(expr);
    if is_path || is_polygon {
        if atoms.len() < 2 {
            return None;
        }
        let layer = atoms[0].clone();
        let width = atoms[1].clone();
        let coords = parse_coords(&atoms, 2);
        if is_path {
            Some(Shape::Path { layer, width, coords })
        } else {
            Some(Shape::Polygon { layer, width, coords })
        }
    } else if is_rect {
        if atoms.len() < 5 {
            return None;
        }
        Some(
            Shape::Rect {
                layer: atoms[0].clone(),
                x1: atoms[1].clone(),
                y1: atoms[2].clone(),
                x2: atoms[3].clone(),
                y2: atoms[4].clone(),
            },
        )
    } else {
        Some(
            Shape::Circle {
                layer: at_or_exec(&atoms, 0, ""),
                diameter: at_or_exec(&atoms, 1, "0"),
                cx: at_or_exec(&atoms, 2, "0"),
                cy: at_or_exec(&atoms, 3, "0"),
            },
        )
    }
}

// ─── The rest of the model ──────────────────────────────────────────────────

#[derive(Debug)]
pub struct Structure {
    pub layers: Vec<Layer>,
    pub boundary: Option<Shape>,
    pub vias: Vec<String>,
    pub rules: Vec<RoutingRule>,
    pub keepouts: Vec<Shape>,
    pub planes: Vec<(String, Shape)>,
}

pub struct StructureV {
    pub layers: Seq<LayerV>,
    pub boundary: Option<ShapeV>,
    pub vias: Seq<Text>,
    pub rules: Seq<RoutingRuleV>,
    pub keepouts: Seq<ShapeV>,
    pub planes: Seq<(Text, ShapeV)>,
}

impl View for Structure {
    type V = StructureV;

    open spec fn view(&self) -> StructureV {
        StructureV {
            layers: self.layers@.map_values(|l: Layer| l@),
            boundary: opt_shape(self.boundary),
            vias: strs(self.vias@),
            rules: self.rules@.map_values(|r: RoutingRule| r@),
            keepouts: shapes(self.keepouts@),
            planes: self.planes@.map_values(|p: (String, Shape)| (p.0@, p.1@)),
        }
    }
}

#[derive(Debug)]
pub struct Pin {
    pub padstack: String,
    pub name: String,
    pub x: String,
    pub y: String,
}

pub struct PinV {
    pub padstack: Text,
    pub name: Text,
    pub x: Text,
    pub y: Text,
}

impl View for Pin {
    type V = PinV;

    open spec fn view(&self) -> PinV {
        PinV { padstack: self.padstack@, name: self.name@, x: self.x@, y: self.y@ }
    }
}

#[derive(Debug)]
pub struct Image {
    pub name: String,
    pub pins: Vec<Pin>,
}

pub struct ImageV {
    pub name: Text,
    pub pins: Seq<PinV>,
}

impl View for Image {
    type V = ImageV;

    open spec fn view(&self) -> ImageV {
        ImageV { name: self.name@, pins: self.pins@.map_values(|p: Pin| p@) }
    }
}

#[derive(Debug)]
pub struct Padstack {
    pub name: String,
    pub shapes: Vec<Shape>,
    pub attach: bool,
}

pub struct PadstackV {
    pub name: Text,
    pub shapes: Seq<ShapeV>,
    pub attach: bool,
}

impl View for Padstack {
    type V = PadstackV;

    open spec fn view(&self) -> PadstackV {
        PadstackV { name: self.name@, shapes: shapes(self.shapes@), attach: self.attach }
    }
}

#[derive(Debug)]
pub struct Library {
    pub images: Vec<Image>,
    pub padstacks: Vec<Padstack>,
}

pub struct LibraryV {
    pub images: Seq<ImageV>,
    pub padstacks: Seq<PadstackV>,
}

impl View for Library {
    type V = LibraryV;

    open spec fn view(&self) -> LibraryV {
        LibraryV {
            images: self.images@.map_values(|i: Image| i@),
            padstacks: self.padstacks@.map_values(|p: Padstack| p@),
        }
    }
}

#[derive(Debug)]
pub struct PlacedComponent {
    pub id: String,
    pub x: String,
    pub y: String,
    pub side: String,
    pub rotation: String,
}

pub struct PlacedComponentV {
    pub id: Text,
    pub x: Text,
    pub y: Text,
    pub side: Text,
    pub rotation: Text,
}

impl View for PlacedComponent {
    type V = PlacedComponentV;

    open spec fn view(&self) -> PlacedComponentV {
        PlacedComponentV { id: self.id@, x: self.x@, y: self.y@, side: self.side@, rotation: self.rotation@ }
    }
}

#[derive(Debug)]
pub struct ComponentGroup {
    pub image: String,
    pub places: Vec<PlacedComponent>,
}

pub struct ComponentGroupV {
    pub image: Text,
    pub places: Seq<PlacedComponentV>,
}

impl View for ComponentGroup {
    type V = ComponentGroupV;

    open spec fn view(&self) -> ComponentGroupV {
        ComponentGroupV { image: self.image@, places: self.places@.map_values(|p: PlacedComponent| p@) }
    }
}

#[derive(Debug)]
pub struct Placement {
    pub components: Vec<ComponentGroup>,
}

impl View for Placement {
    type V = Seq<ComponentGroupV>;

    open spec fn view(&self) -> Seq<ComponentGroupV> {
        self.components@.map_values(|c: ComponentGroup| c@)
    }
}

#[derive(Debug)]
pub struct Net {
    pub name: String,
    pub pins: Vec<String>,
}

pub struct NetV {
    pub name: Text,
    pub pins: Seq<Text>,
}

impl View for Net {
    type V = NetV;

    open spec fn view(&self) -> NetV {
        NetV { name: self.name@, pins: strs(self.pins@) }
    }
}

#[derive(Debug)]
pub struct NetClass {
    pub name: String,
    pub nets: Vec<String>,
    pub via: Option<String>,
    pub rule: Option<RoutingRule>,
}

pub struct NetClassV {
    pub name: Text,
    pub nets: Seq<Text>,
    pub via: Option<Text>,
    pub rule: Option<RoutingRuleV>,
}

impl View for NetClass {
    type V = NetClassV;

    open spec fn view(&self) -> NetClassV {
        NetClassV {
            name: self.name@,
            nets: strs(self.nets@),
            via: opt_str(self.via),
            rule: match self.rule {
                Some(r) => Some(r@),
                None => None,
            },
        }
    }
}

#[derive(Debug)]
pub struct Network {
    pub nets: Vec<Net>,
    pub classes: Vec<NetClass>,
}

pub struct NetworkV {
    pub nets: Seq<NetV>,
    pub classes: Seq<NetClassV>,
}

impl View for Network {
    type V = NetworkV;

    open spec fn view(&self) -> NetworkV {
        NetworkV {
            nets: self.nets@.map_values(|n: Net| n@),
            classes: self.classes@.map_values(|c: NetClass| c@),
        }
    }
}

#[derive(Debug)]
pub struct Wire {
    pub layer: String,
    pub width: String,
    pub path: Vec<(String, String)>,
    pub net: Option<String>,
}

pub struct WireV {
    pub layer: Text,
    pub width: Text,
    pub path: Seq<TextPair>,
    pub net: Option<Text>,
}

impl View for Wire {
    type V = WireV;

    open spec fn view(&self) -> WireV {
        WireV { layer: self.layer@, width: self.width@, path: str_pairs(self.path@), net: opt_str(self.net) }
    }
}

#[derive(Debug)]
pub struct PlacedVia {
    pub padstack: String,
    pub x: String,
    pub y: String,
    pub net: Option<String>,
}

pub struct PlacedViaV {
    pub padstack: Text,
    pub x: Text,
    pub y: Text,
    pub net: Option<Text>,
}

impl View for PlacedVia {
    type V = PlacedViaV;

    open spec fn view(&self) -> PlacedViaV {
        PlacedViaV { padstack: self.padstack@, x: self.x@, y: self.y@, net: opt_str(self.net) }
    }
}

#[derive(Debug)]
pub struct Wiring {
    pub wires: Vec<Wire>,
    pub vias: Vec<PlacedVia>,
}

pub struct WiringV {
    pub wires: Seq<WireV>,
    pub vias: Seq<PlacedViaV>,
}

impl View for Wiring {
    type V = WiringV;

    open spec fn view(&self) -> WiringV {
        WiringV {
            wires: self.wires@.map_values(|w: Wire| w@),
            vias: self.vias@.map_values(|v: PlacedVia| v@),
        }
    }
}

/// A parsed DSN board.
#[derive(Debug)]
pub struct Pcb {
    pub id: String,
    pub resolution_unit: String,
    pub resolution_value: String,
    pub unit: String,
    pub structure: Structure,
    pub placement: Placement,
    pub library: Library,
    pub network: Network,
    pub wiring: Wiring,
}

pub struct PcbV {
    pub id: Text,
    pub resolution_unit: Text,
    pub resolution_value: Text,
    pub unit: Text,
    pub structure: StructureV,
    pub placement: Seq<ComponentGroupV>,
    pub library: LibraryV,
    pub network: NetworkV,
    pub wiring: WiringV,
}

impl View for Pcb {
    type V = PcbV;

    open spec fn view(&self) -> PcbV {
        PcbV {
            id: self.id@,
            resolution_unit: self.resolution_unit@,
            resolution_value: self.resolution_value@,
            unit: self.unit@,
            structure: self.structure@,
            placement: self.placement@,
            library: self.library@,
            network: self.network@,
            wiring: self.wiring@,
        }
    }
}

// ─── Routing rules and layers ───────────────────────────────────────────────

/// One item of a `(rule ...)` node: `(width w)` sets the width; `(clearance v
/// [(type t)])` adds a clearance (value `0` when none is given).
pub open spec fn rule_step(r: RoutingRuleV, it: Tree) -> RoutingRuleV {
    if tree_tag(it) == "width"@ {
        match first_atom(it) {
            Some(w) => RoutingRuleV { width: w, ..r },
            None => r,
        }
    } else if tree_tag(it) == "clearance"@ {
        RoutingRuleV {
            clearances: r.clearances.push((text_or(first_atom(it), "0"@), sub_atom(it, "type"@))),
            ..r
        }
    } else {
        r
    }
}

pub open spec fn rule_fold(items: Seq<Tree>) -> RoutingRuleV
    decreases items.len(),
{
    if items.len() == 0 {
        RoutingRuleV { width: "0"@, clearances: Seq::empty() }
    } else {
        rule_step(rule_fold(items.drop_last()), items.last())
    }
}

/// A `(rule ...)` node: width `0` unless given, and its clearances in order.
pub open spec fn spec_rule(t: Tree) -> RoutingRuleV {
    rule_fold(tree_children(t))
}

pub fn parse_routing_rule(expr: &SExpr) -> (r: RoutingRule)
    requires
        !is_empty_list(expr@),
    ensures
        r@ == spec_rule(expr@),
{
    let mut rule = RoutingRule { width: own("0"), clearances: Vec::new() };
    let items = expr.children();
    let ghost kids = crate::sexpr::slice_views(items@);
    proof {
        assert(rule@.clearances =~= Seq::<(Text, Option<Text>)>::empty());
        assert(rule_fold(kids.take(0)) == rule_fold(Seq::empty()));
    }
    let mut i: usize = 0;
    while i < items.len()
        invariant
            i <= items@.len(),
            kids == crate::sexpr::slice_views(items@),
            kids == tree_children(expr@),
            rule@ == rule_fold(kids.take(i as int)),
        decreases items@.len() - i,
    {
        let item = &items[i];
        proof {
            assert(kids.take(i + 1).drop_last() =~= kids.take(i as int));
            assert(kids.take(i + 1).last() == item@);
            reveal_strlit("width");
            reveal_strlit("clearance");
            reveal_strlit("type");
        }
        let tag = item.tag();
        if str_eq(tag, "width") {
            proof {
                lemma_tag_nonempty(item@);
            }
            match first_atom_exec(item) {
                Some(v) => {
                    rule.width = v;
                },
                None => {},
            }
        } else if str_eq(tag, "clearance") {
            proof {
                lemma_tag_nonempty(item@);
            }
            let val = match first_atom_exec(item) {
                Some(v) => v,
                None => own("0"),
            };
            let label = sub_atom_exec(item, "type");
            let ghost before = rule@;
            rule.clearances.push((val, label));
            assert(rule@.clearances =~= before.clearances.push((val@, opt_str(label))));
        }
        i = i + 1;
    }
    assert(kids.take(items@.len() as int) =~= kids);
    rule
}

/// `'0'..='9'`.
pub open spec fn is_digit(c: char) -> bool {
    '0' <= c <= '9'
}

/// The value of a string of decimal digits.
pub open spec fn digits_value(s: Seq<char>) -> int
    decreases s.len(),
{
    if s.len() == 0 {
        0
    } else {
        digits_value(s.drop_last()) * 10 + (s.last() as int - '0' as int)
    }
}

/// Reading a `u32` from text: an optional `+`, then at least one decimal
/// digit, with a value that fits.
pub open spec fn spec_parse_u32(s: Seq<char>) -> Option<u32> {
    let d = strip_plus(s);
    if d.len() > 0 && all_digits(d) && digits_value(d) <= u32::MAX {
        Some(digits_value(d) as u32)
    } else {
        None
    }
}

pub open spec fn strip_plus(s: Seq<char>) -> Seq<char> {
    if s.len() > 0 && s[0] == '+' { s.drop_first() } else { s }
}

pub open spec fn all_digits(d: Seq<char>) -> bool {
    forall|i: int| 0 <= i < d.len() ==> is_digit(#[trigger] d[i])
}

proof fn lemma_digits_nonneg(s: Seq<char>)
    requires
        forall|i: int| 0 <= i < s.len() ==> is_digit(#[trigger] s[i]),
    ensures
        digits_value(s) >= 0,
    decreases s.len(),
{
    if s.len() > 0 {
        lemma_digits_nonneg(s.drop_last());
    }
}

/// Reads a `u32` from text (see [`spec_parse_u32`]).
pub fn parse_u32(s: &str) -> (r: Option<u32>)
    ensures
        r == spec_parse_u32(s@),
{
    let cs = crate::text::to_chars(s);
    let n = cs.len();
    let start: usize = if n > 0 && cs[0] == '+' { 1 } else { 0 };
    let ghost d = strip_plus(s@);
    assert(d =~= cs@.skip(start as int));
    if start >= n {
        return None;
    }
    let cap: u64 = 0x1_0000_0000;
    let mut v: u64 = 0;
    let mut i = start;
    while i < n
        invariant
            start <= i <= n == cs@.len(),
            d == cs@.skip(start as int),
            d == strip_plus(s@),
            cap == 0x1_0000_0000,
            forall|k: int| 0 <= k < i - start ==> is_digit(#[trigger] d[k]),
            v as int == if digits_value(d.take(i - start)) < cap { digits_value(d.take(i - start)) } else { cap as int },
        decreases n - i,
    {
        let c = cs[i];
        if !('0' <= c && c <= '9') {
            assert(d[i - start] == c);
            assert(!is_digit(d[i - start]));
            assert(!all_digits(d));
            return None;
        }
        let dv = (c as u32 - '0' as u32) as u64;
        let ghost pre = d.take(i - start);
        proof {
            assert(d.take(i - start + 1).drop_last() =~= pre);
            assert(d.take(i - start + 1).last() == c);
            lemma_digits_nonneg(pre);
        }
        let next = v * 10 + dv;
        v = if next < cap { next } else { cap };
        i = i + 1;
    }
    assert(d.take(n - start) =~= d);
    if v < cap {
        Some(v as u32)
    } else {
        None
    }
}

/// One `(layer name (type t) (property (index i)))` node: type `signal`
/// unless given; the index when it reads as a `u32`.
pub open spec fn spec_layer(t: Tree) -> LayerV {
    LayerV {
        name: text_or(first_atom(t), ""@),
        layer_type: text_or(sub_atom(t, "type"@), "signal"@),
        index: match first_tagged(t, "property"@) {
            Some(p) => match sub_atom(p, "index"@) {
                Some(v) => spec_parse_u32(v),
                None => None,
            },
            None => None,
        },
    }
}

fn parse_layer(item: &SExpr) -> (r: Layer)
    requires
        !is_empty_list(item@),
    ensures
        r@ == spec_layer(item@),
{
    proof {
        reveal_strlit("type");
        reveal_strlit("property");
        reveal_strlit("index");
    }
    let name = match first_atom_exec(item) {
        Some(n) => n,
        None => own(""),
    };
    let layer_type = match sub_atom_exec(item, "type") {
        Some(t) => t,
        None => own("signal"),
    };
    let index = match first_tagged_exec(item, "property") {
        Some(p) => match sub_atom_exec(p, "index") {
            Some(v) => parse_u32(v.as_str()),
            None => None,
        },
        None => None,
    };
    Layer { name, layer_type, index }
}

// ─── Structure ──────────────────────────────────────────────────────────────

/// Tags of the nodes that can stand for a boundary, keepout or plane shape.
pub open spec fn is_outline_tag(tag: Text) -> bool {
    tag == "path"@ || tag == "polygon"@ || tag == "rect"@ || tag == "circle"@
}

/// The first of `items` with an outline tag.
pub open spec fn first_outline(items: Seq<Tree>) -> Option<Tree>
    decreases items.len(),
{
    if items.len() == 0 {
        None
    } else if is_outline_tag(tree_tag(items[0])) {
        Some(items[0])
    } else {
        first_outline(items.drop_first())
    }
}

pub open spec fn skip_one(items: Seq<Tree>) -> Seq<Tree> {
    if items.len() >= 1 { items.skip(1) } else { items }
}

/// One item of a `(structure ...)` node.
pub open spec fn structure_step(s: StructureV, it: Tree) -> StructureV {
    let tag = tree_tag(it);
    if tag == "layer"@ {
        StructureV { layers: s.layers.push(spec_layer(it)), ..s }
    } else if tag == "boundary"@ {
        match first_outline(tree_children(it)) {
            Some(c) => StructureV { boundary: spec_shape(c), ..s },
            None => s,
        }
    } else if tag == "via"@ {
        match first_atom(it) {
            Some(v) => StructureV { vias: s.vias.push(v), ..s },
            None => s,
        }
    } else if tag == "rule"@ {
        StructureV { rules: s.rules.push(spec_rule(it)), ..s }
    } else if tag == "keepout"@ {
        match first_outline(tree_children(it)) {
            Some(c) => match spec_shape(c) {
                Some(sh) => StructureV { keepouts: s.keepouts.push(sh), ..s },
                None => s,
            },
            None => s,
        }
    } else if tag == "plane"@ {
        match first_outline(skip_one(tree_children(it))) {
            Some(c) => match spec_shape(c) {
                Some(sh) => StructureV { planes: s.planes.push((text_or(first_atom(it), ""@), sh)), ..s },
                None => s,
            },
            None => s,
        }
    } else {
        s
    }
}

pub open spec fn empty_structure() -> StructureV {
    StructureV {
        layers: Seq::empty(),
        boundary: None,
        vias: Seq::empty(),
        rules: Seq::empty(),
        keepouts: Seq::empty(),
        planes: Seq::empty(),
    }
}

pub open spec fn structure_fold(items: Seq<Tree>) -> StructureV
    decreases items.len(),
{
    if items.len() == 0 {
        empty_structure()
    } else {
        structure_step(structure_fold(items.drop_last()), items.last())
    }
}

/// A `(structure ...)` node, item by item.
pub open spec fn spec_structure(t: Tree) -> StructureV {
    structure_fold(tree_children(t))
}

fn is_outline_tag_exec(tag: &str) -> (r: bool)
    ensures
        r == is_outline_tag(tag@),
{
    str_eq(tag, "path") || str_eq(tag, "polygon") || str_eq(tag, "rect") || str_eq(tag, "circle")
}

/// The first of `items[from..]` with an outline tag.
fn first_outline_exec<'a>(items: &'a [SExpr], from: usize) -> (r: Option<&'a SExpr>)
    requires
        from <= items@.len(),
    ensures
        match r {
            Some(c) => first_outline(crate::sexpr::slice_views(items@).skip(from as int)) == Some(c@),
            None => first_outline(crate::sexpr::slice_views(items@).skip(from as int)) is None,
        },
{
    let ghost all = crate::sexpr::slice_views(items@);
    let mut i = from;
    while i < items.len()
        invariant
            from <= i <= items@.len(),
            all == crate::sexpr::slice_views(items@),
            first_outline(all.skip(from as int)) == first_outline(all.skip(i as int)),
        decreases items@.len() - i,
    {
        assert(all.skip(i as int)[0] == items@[i as int]@);
        if is_outline_tag_exec(items[i].tag()) {
            return Some(&items[i]);
        }
        assert(all.skip(i as int).drop_first() =~= all.skip(i + 1));
        i = i + 1;
    }
    None
}

pub fn parse_structure(expr: &SExpr) -> (r: Structure)
    requires
        !is_empty_list(expr@),
    ensures
        r@ == spec_structure(expr@),
{
    let mut s = Structure {
        layers: Vec::new(),
        boundary: None,
        vias: Vec::new(),
        rules: Vec::new(),
        keepouts: Vec::new(),
        planes: Vec::new(),
    };
    let items = expr.children();
    let ghost kids = crate::sexpr::slice_views(items@);
    proof {
        assert(s@.layers =~= empty_structure().layers);
        assert(s@.vias =~= empty_structure().vias);
        assert(s@.rules =~= empty_structure().rules);
        assert(s@.keepouts =~= empty_structure().keepouts);
        assert(s@.planes =~= empty_structure().planes);
        assert(kids.take(0) =~= Seq::<Tree>::empty());
    }
    let mut i: usize = 0;
    while i < items.len()
        invariant
            i <= items@.len(),
            kids == crate::sexpr::slice_views(items@),
            kids == tree_children(expr@),
            s@ == structure_fold(kids.take(i as int)),
        decreases items@.len() - i,
    {
        let item = &items[i];
        proof {
            assert(kids.take(i + 1).drop_last() =~= kids.take(i as int));
            assert(kids.take(i + 1).last() == item@);
            reveal_strlit("layer");
            reveal_strlit("boundary");
            reveal_strlit("via");
            reveal_strlit("rule");
            reveal_strlit("keepout");
            reveal_strlit("plane");
        }
        let ghost before = s@;
        let tag = item.tag();
        if str_eq(tag, "layer") {
            proof { lemma_tag_nonempty(item@); }
            let layer = parse_layer(item);
            s.layers.push(layer);
            assert(s@.layers =~= before.layers.push(spec_layer(item@)));
        } else if str_eq(tag, "boundary") {
            proof { lemma_tag_nonempty(item@); }
            let kids2 = item.children();
            proof { assert(crate::sexpr::slice_views(kids2@).skip(0) =~= crate::sexpr::slice_views(kids2@)); }
            match first_outline_exec(kids2, 0) {
                Some(shape_expr) => {
                    s.boundary = parse_shape(shape_expr);
                },
                None => {},
            }
        } else if str_eq(tag, "via") {
            proof { lemma_tag_nonempty(item@); }
            match first_atom_exec(item) {
                Some(name) => {
                    s.vias.push(name);
                    assert(s@.vias =~= before.vias.push(name@));
                },
                None => {},
            }
        } else if str_eq(tag, "rule") {
            proof { lemma_tag_nonempty(item@); }
            let rule = parse_routing_rule(item);
            s.rules.push(rule);
            assert(s@.rules =~= before.rules.push(spec_rule(item@)));
        } else if str_eq(tag, "keepout") {
            proof { lemma_tag_nonempty(item@); }
            let kids2 = item.children();
            proof { assert(crate::sexpr::slice_views(kids2@).skip(0) =~= crate::sexpr::slice_views(kids2@)); }
            match first_outline_exec(kids2, 0) {
                Some(shape_expr) => {
                    match parse_shape(shape_expr) {
                        Some(shape) => {
                            let ghost sv = shape@;
                            s.keepouts.push(shape);
                            assert(s@.keepouts =~= before.keepouts.push(sv));
                        },
                        None => {},
                    }
                },
                None => {},
            }
        } else if str_eq(tag, "plane") {
            proof { lemma_tag_nonempty(item@); }
            let net = match first_atom_exec(item) {
                Some(n) => n,
                None => own(""),
            };
            let kids2 = item.children();
            let from: usize = if kids2.len() >= 1 { 1 } else { 0 };
            proof {
                let k2 = crate::sexpr::slice_views(kids2@);
                if k2.len() == 0 {
                    assert(k2.skip(0) =~= k2);
                }
            }
            match first_outline_exec(kids2, from) {
                Some(shape_expr) => {
                    match parse_shape(shape_expr) {
                        Some(shape) => {
                            let ghost sv = shape@;
                            let ghost nv = net@;
                            s.planes.push((net, shape));
                            assert(s@.planes =~= before.planes.push((nv, sv)));
                        },
                        None => {},
                    }
                },
                None => {},
            }
        }
        i = i + 1;
    }
    assert(kids.take(items@.len() as int) =~= kids);
    s
}

// ─── Placement, library, network, wiring ────────────────────────────────────

pub proof fn lemma_filter_map_step<A, B>(s: Seq<A>, f: spec_fn(A) -> Option<B>, i: int)
    requires
        0 <= i < s.len(),
    ensures
        s.take(i + 1).filter_map(f) == s.take(i).filter_map(f) + match f(s[i]) {
            Some(b) => seq![b],
            None => Seq::<B>::empty(),
        },
{
    assert(s.take(i + 1).drop_last() =~= s.take(i));
    assert(s.take(i + 1).last() == s[i]);
    match f(s[i]) {
        Some(b) => {},
        None => {
            assert(s.take(i).filter_map(f) + Seq::<B>::empty() =~= s.take(i).filter_map(f));
        },
    }
}

/// `(place id x y side rotation ...)`: a placement when it has five atoms.
pub open spec fn spec_place(t: Tree) -> Option<PlacedComponentV> {
    let a = atoms_of(t);
    if a.len() >= 5 {
        Some(PlacedComponentV { id: a[0], x: a[1], y: a[2], side: a[3], rotation: a[4] })
    } else {
        None
    }
}

/// `(component image (place ...) ...)`.
pub open spec fn spec_group(t: Tree) -> ComponentGroupV {
    ComponentGroupV {
        image: text_or(first_atom(t), ""@),
        places: tagged(tree_children(t), "place"@).filter_map(|p: Tree| spec_place(p)),
    }
}

/// A `(placement ...)` node: one group per `component` child.
pub open spec fn spec_placement(t: Tree) -> Seq<ComponentGroupV> {
    tagged(tree_children(t), "component"@).map_values(|c: Tree| spec_group(c))
}

/// The nodes found with a nonempty tag are no empty lists.
proof fn lemma_found(found: Seq<&SExpr>, items: Seq<Tree>, tag: Seq<char>)
    requires
        crate::sexpr::views(found) == tagged(items, tag),
        tag.len() > 0,
    ensures
        forall|i: int| 0 <= i < found.len() ==> !is_empty_list(#[trigger] found[i]@),
{
    lemma_tagged_tags(items, tag);
    assert forall|i: int| 0 <= i < found.len() implies !is_empty_list(#[trigger] found[i]@) by {
        assert(crate::sexpr::views(found)[i] == found[i]@);
    }
}

fn parse_group(comp: &SExpr) -> (r: ComponentGroup)
    requires
        !is_empty_list(comp@),
    ensures
        r@ == spec_group(comp@),
{
    proof {
        reveal_strlit("place");
    }
    let image = match first_atom_exec(comp) {
        Some(n) => n,
        None => own(""),
    };
    let found = comp.find_all("place");
    proof {
        lemma_found(found@, tree_children(comp@), "place"@);
    }
    let ghost ps = tagged(tree_children(comp@), "place"@);
    let ghost f = |p: Tree| spec_place(p);
    let mut places: Vec<PlacedComponent> = Vec::new();
    let mut i: usize = 0;
    while i < found.len()
        invariant
            i <= found@.len(),
            crate::sexpr::views(found@) == ps,
            forall|k: int| 0 <= k < found@.len() ==> !is_empty_list(#[trigger] found@[k]@),
            f == (|p: Tree| spec_place(p)),
            places@.map_values(|p: PlacedComponent| p@) == ps.take(i as int).filter_map(f),
        decreases found@.len() - i,
    {
        let place = found[i];
        proof {
            lemma_filter_map_step(ps, f, i as int);
            assert(ps[i as int] == place@);
            assert(f(ps[i as int]) == spec_place(place@));
        }
        let atoms = atoms_exec(place);
        let ghost before = places@.map_values(|p: PlacedComponent| p@);
        if atoms.len() >= 5 {
            let pc = PlacedComponent {
                id: atoms[0].clone(),
                x: atoms[1].clone(),
                y: atoms[2].clone(),
                side: atoms[3].clone(),
                rotation: atoms[4].clone(),
            };
            let ghost pv = pc@;
            places.push(pc);
            assert(places@.map_values(|p: PlacedComponent| p@) =~= before.push(pv));
        } else {
            assert(before + Seq::<PlacedComponentV>::empty() =~= before);
        }
        i = i + 1;
    }
    assert(ps.take(found@.len() as int) =~= ps);
    ComponentGroup { image, places }
}

pub fn parse_placement(expr: &SExpr) -> (r: Placement)
    requires
        !is_empty_list(expr@),
    ensures
        r@ == spec_placement(expr@),
{
    proof {
        reveal_strlit("component");
    }
    let found = expr.find_all("component");
    proof {
        lemma_found(found@, tree_children(expr@), "component"@);
    }
    let ghost cs = tagged(tree_children(expr@), "component"@);
    let mut components: Vec<ComponentGroup> = Vec::new();
    let mut i: usize = 0;
    while i < found.len()
        invariant
            i <= found@.len(),
            crate::sexpr::views(found@) == cs,
            forall|k: int| 0 <= k < found@.len() ==> !is_empty_list(#[trigger] found@[k]@),
            components@.map_values(|c: ComponentGroup| c@) == cs.take(i as int).map_values(|c: Tree| spec_group(c)),
        decreases found@.len() - i,
    {
        proof {
            assert(cs[i as int] == found@[i as int]@);
        }
        let g = parse_group(found[i]);
        let ghost before = components@.map_values(|c: ComponentGroup| c@);
        let ghost iv = g@;
        components.push(g);
        assert(components@.map_values(|c: ComponentGroup| c@) =~= before.push(iv));
        assert(cs.take(i + 1).map_values(|c: Tree| spec_group(c)) =~= cs.take(i as int).map_values(|c: Tree| spec_group(c)).push(spec_group(cs[i as int])));
        i = i + 1;
    }
    assert(cs.take(found@.len() as int) =~= cs);
    Placement { components }
}

/// `(pin padstack name x y ...)`: a pin when it has four atoms.
pub open spec fn spec_pin(t: Tree) -> Option<PinV> {
    let a = atoms_of(t);
    if a.len() >= 4 {
        Some(PinV { padstack: a[0], name: a[1], x: a[2], y: a[3] })
    } else {
        None
    }
}

/// `(image name (pin ...) ...)`.
pub open spec fn spec_image(t: Tree) -> ImageV {
    ImageV {
        name: text_or(first_atom(t), ""@),
        pins: tagged(tree_children(t), "pin"@).filter_map(|p: Tree| spec_pin(p)),
    }
}

/// `(shape s)`: the shape `s`, when it reads as one.
pub open spec fn spec_shape_item(t: Tree) -> Option<ShapeV> {
    if tree_children(t).len() > 0 {
        spec_shape(tree_children(t)[0])
    } else {
        None
    }
}

/// `(padstack name (shape ...) ... (attach on|off))`.
pub open spec fn spec_padstack(t: Tree) -> PadstackV {
    PadstackV {
        name: text_or(first_atom(t), ""@),
        shapes: tagged(tree_children(t), "shape"@).filter_map(|s: Tree| spec_shape_item(s)),
        attach: sub_atom(t, "attach"@) == Some("on"@),
    }
}

/// A `(library ...)` node: its images, then its padstacks.
pub open spec fn spec_library(t: Tree) -> LibraryV {
    LibraryV {
        images: tagged(tree_children(t), "image"@).map_values(|i: Tree| spec_image(i)),
        padstacks: tagged(tree_children(t), "padstack"@).map_values(|p: Tree| spec_padstack(p)),
    }
}

/// No `(shape ...)` of a padstack of this library starts with an empty list
/// `()`, on which reading the library would fail.
pub open spec fn library_readable(t: Tree) -> bool {
    forall|i: int|
        0 <= i < tagged(tree_children(t), "padstack"@).len() ==> padstack_readable(
            #[trigger] tagged(tree_children(t), "padstack"@)[i],
        )
}

pub open spec fn padstack_readable(p: Tree) -> bool {
    forall|j: int|
        0 <= j < tagged(tree_children(p), "shape"@).len() ==> shape_item_readable(
            #[trigger] tagged(tree_children(p), "shape"@)[j],
        )
}

pub open spec fn shape_item_readable(s: Tree) -> bool {
    tree_children(s).len() > 0 ==> !is_empty_list(tree_children(s)[0])
}

fn parse_image(img: &SExpr) -> (r: Image)
    requires
        !is_empty_list(img@),
    ensures
        r@ == spec_image(img@),
{
    proof {
        reveal_strlit("pin");
    }
    let name = match first_atom_exec(img) {
        Some(n) => n,
        None => own(""),
    };
    let found = img.find_all("pin");
    proof {
        lemma_found(found@, tree_children(img@), "pin"@);
    }
    let ghost ps = tagged(tree_children(img@), "pin"@);
    let ghost f = |p: Tree| spec_pin(p);
    let mut pins: Vec<Pin> = Vec::new();
    let mut i: usize = 0;
    while i < found.len()
        invariant
            i <= found@.len(),
            crate::sexpr::views(found@) == ps,
            forall|k: int| 0 <= k < found@.len() ==> !is_empty_list(#[trigger] found@[k]@),
            f == (|p: Tree| spec_pin(p)),
            pins@.map_values(|p: Pin| p@) == ps.take(i as int).filter_map(f),
        decreases found@.len() - i,
    {
        let pe = found[i];
        proof {
            lemma_filter_map_step(ps, f, i as int);
            assert(ps[i as int] == pe@);
            assert(f(ps[i as int]) == spec_pin(pe@));
        }
        let atoms = atoms_exec(pe);
        let ghost before = pins@.map_values(|p: Pin| p@);
        if atoms.len() >= 4 {
            let pin = Pin {
                padstack: atoms[0].clone(),
                name: atoms[1].clone(),
                x: atoms[2].clone(),
                y: atoms[3].clone(),
            };
            let ghost pv = pin@;
            pins.push(pin);
            assert(pins@.map_values(|p: Pin| p@) =~= before.push(pv));
        } else {
            assert(before + Seq::<PinV>::empty() =~= before);
        }
        i = i + 1;
    }
    assert(ps.take(found@.len() as int) =~= ps);
    Image { name, pins }
}

fn parse_padstack(ps: &SExpr) -> (r: Padstack)
    requires
        !is_empty_list(ps@),
        padstack_readable(ps@),
    ensures
        r@ == spec_padstack(ps@),
{
    proof {
        reveal_strlit("shape");
        reveal_strlit("attach");
        reveal_strlit("on");
    }
    let name = match first_atom_exec(ps) {
        Some(n) => n,
        None => own(""),
    };
    let attach = match sub_atom_exec(ps, "attach") {
        Some(v) => str_eq(v.as_str(), "on"),
        None => false,
    };
    let found = ps.find_all("shape");
    proof {
        lemma_found(found@, tree_children(ps@), "shape"@);
    }
    let ghost ss = tagged(tree_children(ps@), "shape"@);
    let ghost f = |s: Tree| spec_shape_item(s);
    let mut shapes_v: Vec<Shape> = Vec::new();
    let mut i: usize = 0;
    while i < found.len()
        invariant
            i <= found@.len(),
            crate::sexpr::views(found@) == ss,
            padstack_readable(ps@),
            ss == tagged(tree_children(ps@), "shape"@),
            forall|k: int| 0 <= k < found@.len() ==> !is_empty_list(#[trigger] found@[k]@),
            f == (|s: Tree| spec_shape_item(s)),
            shapes(shapes_v@) == ss.take(i as int).filter_map(f),
        decreases found@.len() - i,
    {
        let se = found[i];
        proof {
            lemma_filter_map_step(ss, f, i as int);
            assert(ss[i as int] == se@);
            assert(f(ss[i as int]) == spec_shape_item(se@));
            assert(shape_item_readable(ss[i as int]));
        }
        let kids = se.children();
        let ghost before = shapes(shapes_v@);
        if kids.len() > 0 {
            proof {
                assert(crate::sexpr::slice_views(kids@)[0] == kids@[0]@);
            }
            match parse_shape(&kids[0]) {
                Some(shape) => {
                    let ghost sv = shape@;
                    shapes_v.push(shape);
                    assert(shapes(shapes_v@) =~= before.push(sv));
                },
                None => {
                    assert(before + Seq::<ShapeV>::empty() =~= before);
                },
            }
        } else {
            assert(before + Seq::<ShapeV>::empty() =~= before);
        }
        i = i + 1;
    }
    assert(ss.take(found@.len() as int) =~= ss);
    Padstack { name, shapes: shapes_v, attach }
}

pub fn parse_library(expr: &SExpr) -> (r: Library)
    requires
        !is_empty_list(expr@),
        library_readable(expr@),
    ensures
        r@ == spec_library(expr@),
{
    proof {
        reveal_strlit("image");
        reveal_strlit("padstack");
    }
    let found = expr.find_all("image");
    proof {
        lemma_found(found@, tree_children(expr@), "image"@);
    }
    let ghost is = tagged(tree_children(expr@), "image"@);
    let mut images: Vec<Image> = Vec::new();
    let mut i: usize = 0;
    while i < found.len()
        invariant
            i <= found@.len(),
            crate::sexpr::views(found@) == is,
            forall|k: int| 0 <= k < found@.len() ==> !is_empty_list(#[trigger] found@[k]@),
            images@.map_values(|x: Image| x@) == is.take(i as int).map_values(|t: Tree| spec_image(t)),
        decreases found@.len() - i,
    {
        proof {
            assert(is[i as int] == found@[i as int]@);
        }
        let im = parse_image(found[i]);
        let ghost before = images@.map_values(|x: Image| x@);
        let ghost iv = im@;
        images.push(im);
        assert(images@.map_values(|x: Image| x@) =~= before.push(iv));
        assert(is.take(i + 1).map_values(|t: Tree| spec_image(t)) =~= is.take(i as int).map_values(|t: Tree| spec_image(t)).push(spec_image(is[i as int])));
        i = i + 1;
    }
    assert(is.take(found@.len() as int) =~= is);
    let found2 = expr.find_all("padstack");
    proof {
        lemma_found(found2@, tree_children(expr@), "padstack"@);
    }
    let ghost pss = tagged(tree_children(expr@), "padstack"@);
    let mut padstacks: Vec<Padstack> = Vec::new();
    let mut j: usize = 0;
    while j < found2.len()
        invariant
            j <= found2@.len(),
            crate::sexpr::views(found2@) == pss,
            library_readable(expr@),
            pss == tagged(tree_children(expr@), "padstack"@),
            forall|k: int| 0 <= k < found2@.len() ==> !is_empty_list(#[trigger] found2@[k]@),
            padstacks@.map_values(|x: Padstack| x@) == pss.take(j as int).map_values(|t: Tree| spec_padstack(t)),
        decreases found2@.len() - j,
    {
        proof {
            assert(pss[j as int] == found2@[j as int]@);
            assert(padstack_readable(pss[j as int]));
        }
        let p = parse_padstack(found2[j]);
        let ghost before = padstacks@.map_values(|x: Padstack| x@);
        let ghost iv = p@;
        padstacks.push(p);
        assert(padstacks@.map_values(|x: Padstack| x@) =~= before.push(iv));
        assert(pss.take(j + 1).map_values(|t: Tree| spec_padstack(t)) =~= pss.take(j as int).map_values(|t: Tree| spec_padstack(t)).push(spec_padstack(pss[j as int])));
        j = j + 1;
    }
    assert(pss.take(found2@.len() as int) =~= pss);
    Library { images, padstacks }
}

/// `(net name (pins p ...))`: no pins when the `pins` list is missing.
pub open spec fn spec_net(t: Tree) -> NetV {
    NetV {
        name: text_or(first_atom(t), ""@),
        pins: match first_tagged(t, "pins"@) {
            Some(p) => atoms_of(p),
            None => Seq::empty(),
        },
    }
}

/// `(class name desc net ... (circuit (use_via v)) (rule ...))`: the atoms
/// after the first two are net names.
pub open spec fn spec_class(t: Tree) -> NetClassV {
    let a = atoms_of(t);
    NetClassV {
        name: at_or(a, 0, ""@),
        nets: if a.len() > 2 { a.skip(2) } else { Seq::empty() },
        via: match first_tagged(t, "circuit"@) {
            Some(c) => sub_atom(c, "use_via"@),
            None => None,
        },
        rule: match first_tagged(t, "rule"@) {
            Some(r) => Some(spec_rule(r)),
            None => None,
        },
    }
}

/// A `(network ...)` node: its nets, then its classes.
pub open spec fn spec_network(t: Tree) -> NetworkV {
    NetworkV {
        nets: tagged(tree_children(t), "net"@).map_values(|n: Tree| spec_net(n)),
        classes: tagged(tree_children(t), "class"@).map_values(|c: Tree| spec_class(c)),
    }
}

fn parse_net(e: &SExpr) -> (r: Net)
    requires
        !is_empty_list(e@),
    ensures
        r@ == spec_net(e@),
{
    proof {
        reveal_strlit("pins");
    }
    let name = match first_atom_exec(e) {
        Some(n) => n,
        None => own(""),
    };
    let pins = match first_tagged_exec(e, "pins") {
        Some(p) => atoms_exec(p),
        None => {
            let v: Vec<String> = Vec::new();
            assert(strs(v@) =~= Seq::<Text>::empty());
            v
        },
    };
    Net { name, pins }
}

fn parse_class(e: &SExpr) -> (r: NetClass)
    requires
        !is_empty_list(e@),
    ensures
        r@ == spec_class(e@),
{
    proof {
        reveal_strlit("circuit");
        reveal_strlit("use_via");
        reveal_strlit("rule");
    }
    let atoms = atoms_exec(e);
    let name = at_or_exec(&atoms, 0, "");
    let mut nets: Vec<String> = Vec::new();
    if atoms.len() > 2 {
        let mut i: usize = 2;
        while i < atoms.len()
            invariant
                2 <= i <= atoms@.len(),
                strs(nets@) == strs(atoms@).skip(2).take(i - 2),
            decreases atoms@.len() - i,
        {
            let ghost before = strs(nets@);
            nets.push(atoms[i].clone());
            assert(strs(nets@) =~= before.push(strs(atoms@)[i as int]));
            assert(strs(atoms@).skip(2).take(i + 1 - 2) =~= strs(atoms@).skip(2).take(i - 2).push(strs(atoms@)[i as int]));
            i = i + 1;
        }
        assert(strs(atoms@).skip(2).take(atoms@.len() - 2) =~= strs(atoms@).skip(2));
    } else {
        assert(strs(nets@) =~= Seq::<Text>::empty());
    }
    let via = match first_tagged_exec(e, "circuit") {
        Some(c) => sub_atom_exec(c, "use_via"),
        None => None,
    };
    let rule = match first_tagged_exec(e, "rule") {
        Some(r) => Some(parse_routing_rule(r)),
        None => None,
    };
    NetClass { name, nets, via, rule }
}

pub fn parse_network(expr: &SExpr) -> (r: Network)
    requires
        !is_empty_list(expr@),
    ensures
        r@ == spec_network(expr@),
{
    proof {
        reveal_strlit("net");
        reveal_strlit("class");
    }
    let found = expr.find_all("net");
    proof {
        lemma_found(found@, tree_children(expr@), "net"@);
    }
    let ghost ns = tagged(tree_children(expr@), "net"@);
    let mut nets: Vec<Net> = Vec::new();
    let mut i: usize = 0;
    while i < found.len()
        invariant
            i <= found@.len(),
            crate::sexpr::views(found@) == ns,
            forall|k: int| 0 <= k < found@.len() ==> !is_empty_list(#[trigger] found@[k]@),
            nets@.map_values(|x: Net| x@) == ns.take(i as int).map_values(|t: Tree| spec_net(t)),
        decreases found@.len() - i,
    {
        proof {
            assert(ns[i as int] == found@[i as int]@);
        }
        let n = parse_net(found[i]);
        let ghost before = nets@.map_values(|x: Net| x@);
        let ghost iv = n@;
        nets.push(n);
        assert(nets@.map_values(|x: Net| x@) =~= before.push(iv));
        assert(ns.take(i + 1).map_values(|t: Tree| spec_net(t)) =~= ns.take(i as int).map_values(|t: Tree| spec_net(t)).push(spec_net(ns[i as int])));
        i = i + 1;
    }
    assert(ns.take(found@.len() as int) =~= ns);
    let found2 = expr.find_all("class");
    proof {
        lemma_found(found2@, tree_children(expr@), "class"@);
    }
    let ghost cs = tagged(tree_children(expr@), "class"@);
    let mut classes: Vec<NetClass> = Vec::new();
    let mut j: usize = 0;
    while j < found2.len()
        invariant
            j <= found2@.len(),
            crate::sexpr::views(found2@) == cs,
            forall|k: int| 0 <= k < found2@.len() ==> !is_empty_list(#[trigger] found2@[k]@),
            classes@.map_values(|x: NetClass| x@) == cs.take(j as int).map_values(|t: Tree| spec_class(t)),
        decreases found2@.len() - j,
    {
        proof {
            assert(cs[j as int] == found2@[j as int]@);
        }
        let c = parse_class(found2[j]);
        let ghost before = classes@.map_values(|x: NetClass| x@);
        let ghost iv = c@;
        classes.push(c);
        assert(classes@.map_values(|x: NetClass| x@) =~= before.push(iv));
        assert(cs.take(j + 1).map_values(|t: Tree| spec_class(t)) =~= cs.take(j as int).map_values(|t: Tree| spec_class(t)).push(spec_class(cs[j as int])));
        j = j + 1;
    }
    assert(cs.take(found2@.len() as int) =~= cs);
    Network { nets, classes }
}

/// The path node of a `(wire ...)`: its first `path`, else its first `polyline_path`.
pub open spec fn wire_path(t: Tree) -> Option<Tree> {
    match first_tagged(t, "path"@) {
        Some(p) => Some(p),
        None => first_tagged(t, "polyline_path"@),
    }
}

/// `(wire (path layer width x y ...) (net n) ...)`: a wire when its path has a
/// layer and a width.
pub open spec fn spec_wire(t: Tree) -> Option<WireV> {
    match wire_path(t) {
        Some(p) => {
            let a = atoms_of(p);
            if a.len() >= 2 {
                Some(WireV { layer: a[0], width: a[1], path: coord_pairs(a.skip(2)), net: sub_atom(t, "net"@) })
            } else {
                None
            }
        },
        None => None,
    }
}

/// `(via padstack x y (net n) ...)`: a via when it has three atoms.
pub open spec fn spec_via(t: Tree) -> Option<PlacedViaV> {
    let a = atoms_of(t);
    if a.len() >= 3 {
        Some(PlacedViaV { padstack: a[0], x: a[1], y: a[2], net: sub_atom(t, "net"@) })
    } else {
        None
    }
}

/// A `(wiring ...)` node: its wires, then its vias.
pub open spec fn spec_wiring(t: Tree) -> WiringV {
    WiringV {
        wires: tagged(tree_children(t), "wire"@).filter_map(|w: Tree| spec_wire(w)),
        vias: tagged(tree_children(t), "via"@).filter_map(|v: Tree| spec_via(v)),
    }
}

fn parse_wire(e: &SExpr) -> (r: Option<Wire>)
    requires
        !is_empty_list(e@),
    ensures
        match r {
            Some(w) => spec_wire(e@) == Some(w@),
            None => spec_wire(e@) is None,
        },
{
    proof {
        reveal_strlit("path");
        reveal_strlit("polyline_path");
        reveal_strlit("net");
    }
    let path_expr = match first_tagged_exec(e, "path") {
        Some(p) => Some(p),
        None => first_tagged_exec(e, "polyline_path"),
    };
    match path_expr {
        Some(pe) => {
            let atoms = atoms_exec(pe);
            if atoms.len() >= 2 {
                let layer = atoms[0].clone();
                let width = atoms[1].clone();
                let path = parse_coords(&atoms, 2);
                let net = sub_atom_exec(e, "net");
                Some(Wire { layer, width, path, net })
            } else {
                None
            }
        },
        None => None,
    }
}

fn parse_via(e: &SExpr) -> (r: Option<PlacedVia>)
    requires
        !is_empty_list(e@),
    ensures
        match r {
            Some(v) => spec_via(e@) == Some(v@),
            None => spec_via(e@) is None,
        },
{
    proof {
        reveal_strlit("net");
    }
    let atoms = atoms_exec(e);
    if atoms.len() >= 3 {
        let net = sub_atom_exec(e, "net");
        Some(PlacedVia { padstack: atoms[0].clone(), x: atoms[1].clone(), y: atoms[2].clone(), net })
    } else {
        None
    }
}

pub fn parse_wiring(expr: &SExpr) -> (r: Wiring)
    requires
        !is_empty_list(expr@),
    ensures
        r@ == spec_wiring(expr@),
{
    proof {
        reveal_strlit("wire");
        reveal_strlit("via");
    }
    let found = expr.find_all("wire");
    proof {
        lemma_found(found@, tree_children(expr@), "wire"@);
    }
    let ghost ws = tagged(tree_children(expr@), "wire"@);
    let ghost f = |w: Tree| spec_wire(w);
    let mut wires: Vec<Wire> = Vec::new();
    let mut i: usize = 0;
    while i < found.len()
        invariant
            i <= found@.len(),
            crate::sexpr::views(found@) == ws,
            f == (|w: Tree| spec_wire(w)),
            forall|k: int| 0 <= k < found@.len() ==> !is_empty_list(#[trigger] found@[k]@),
            wires@.map_values(|x: Wire| x@) == ws.take(i as int).filter_map(f),
        decreases found@.len() - i,
    {
        let we = found[i];
        proof {
            lemma_filter_map_step(ws, f, i as int);
            assert(ws[i as int] == we@);
            assert(f(ws[i as int]) == spec_wire(we@));
        }
        let ghost before = wires@.map_values(|x: Wire| x@);
        match parse_wire(we) {
            Some(w) => {
                let ghost wv = w@;
                wires.push(w);
                assert(wires@.map_values(|x: Wire| x@) =~= before.push(wv));
            },
            None => {
                assert(before + Seq::<WireV>::empty() =~= before);
            },
        }
        i = i + 1;
    }
    assert(ws.take(found@.len() as int) =~= ws);
    let found2 = expr.find_all("via");
    proof {
        lemma_found(found2@, tree_children(expr@), "via"@);
    }
    let ghost vs = tagged(tree_children(expr@), "via"@);
    let ghost g = |v: Tree| spec_via(v);
    let mut vias: Vec<PlacedVia> = Vec::new();
    let mut j: usize = 0;
    while j < found2.len()
        invariant
            j <= found2@.len(),
            crate::sexpr::views(found2@) == vs,
            g == (|v: Tree| spec_via(v)),
            forall|k: int| 0 <= k < found2@.len() ==> !is_empty_list(#[trigger] found2@[k]@),
            vias@.map_values(|x: PlacedVia| x@) == vs.take(j as int).filter_map(g),
        decreases found2@.len() - j,
    {
        let ve = found2[j];
        proof {
            lemma_filter_map_step(vs, g, j as int);
            assert(vs[j as int] == ve@);
            assert(g(vs[j as int]) == spec_via(ve@));
        }
        let ghost before = vias@.map_values(|x: PlacedVia| x@);
        match parse_via(ve) {
            Some(v) => {
                let ghost vv = v@;
                vias.push(v);
                assert(vias@.map_values(|x: PlacedVia| x@) =~= before.push(vv));
            },
            None => {
                assert(before + Seq::<PlacedViaV>::empty() =~= before);
            },
        }
        j = j + 1;
    }
    assert(vs.take(found2@.len() as int) =~= vs);
    Wiring { wires, vias }
}

// ─── The whole file ─────────────────────────────────────────────────────────

/// Why a DSN text could not be read.
#[derive(Debug, PartialEq, Eq, Structural)]
pub enum DsnError {
    /// The text does not follow the S-expression grammar.
    Syntax,
    /// No top-level `(pcb ...)` (or `(PCB ...)`) node.
    NoPcbRoot,
}

pub open spec fn is_pcb_tag(tag: Text) -> bool {
    tag == "pcb"@ || tag == "PCB"@
}

/// The first top-level node tagged `pcb` or `PCB`.
pub open spec fn first_pcb(roots: Seq<Tree>) -> Option<Tree>
    decreases roots.len(),
{
    if roots.len() == 0 {
        None
    } else if is_pcb_tag(tree_tag(roots[0])) {
        Some(roots[0])
    } else {
        first_pcb(roots.drop_first())
    }
}

pub open spec fn empty_pcb() -> PcbV {
    PcbV {
        id: ""@,
        resolution_unit: ""@,
        resolution_value: "0"@,
        unit: ""@,
        structure: empty_structure(),
        placement: Seq::empty(),
        library: LibraryV { images: Seq::empty(), padstacks: Seq::empty() },
        network: NetworkV { nets: Seq::empty(), classes: Seq::empty() },
        wiring: WiringV { wires: Seq::empty(), vias: Seq::empty() },
    }
}

/// One item of the `(pcb ...)` node: an atom names the board while it has no
/// name yet; `(resolution unit value)` (unit `um` and value `1` when not
/// given), `(unit u)` and each section replace what came before.
pub open spec fn pcb_step(p: PcbV, it: Tree) -> PcbV {
    match it {
        Tree::Atom(s) => if p.id.len() == 0 { PcbV { id: s, ..p } } else { p },
        Tree::List(_) => {
            let tag = tree_tag(it);
            if tag == "resolution"@ {
                PcbV {
                    resolution_unit: text_or(first_atom(it), "um"@),
                    resolution_value: at_or(atoms_of(it), 1, "1"@),
                    ..p
                }
            } else if tag == "unit"@ {
                PcbV { unit: text_or(first_atom(it), ""@), ..p }
            } else if tag == "structure"@ {
                PcbV { structure: spec_structure(it), ..p }
            } else if tag == "placement"@ {
                PcbV { placement: spec_placement(it), ..p }
            } else if tag == "library"@ {
                PcbV { library: spec_library(it), ..p }
            } else if tag == "network"@ {
                PcbV { network: spec_network(it), ..p }
            } else if tag == "wiring"@ {
                PcbV { wiring: spec_wiring(it), ..p }
            } else {
                p
            }
        },
    }
}

pub open spec fn pcb_fold(items: Seq<Tree>) -> PcbV
    decreases items.len(),
{
    if items.len() == 0 {
        empty_pcb()
    } else {
        pcb_step(pcb_fold(items.drop_last()), items.last())
    }
}

/// What a DSN text reads as.
pub open spec fn spec_parse_dsn(input: Seq<char>) -> Result<PcbV, DsnError> {
    match read_file(preprocessed(input)) {
        None => Err(DsnError::Syntax),
        Some(roots) => match first_pcb(roots) {
            None => Err(DsnError::NoPcbRoot),
            Some(root) => Ok(pcb_fold(tree_children(root))),
        },
    }
}

/// Every `(library ...)` section of the board can be read (see [`library_readable`]).
pub open spec fn dsn_readable(input: Seq<char>) -> bool {
    match read_file(preprocessed(input)) {
        Some(roots) => match first_pcb(roots) {
            Some(root) => forall|i: int|
                0 <= i < tree_children(root).len() && tree_tag(#[trigger] tree_children(root)[i])
                    == "library"@ ==> library_readable(tree_children(root)[i]),
            None => true,
        },
        None => true,
    }
}

proof fn lemma_first_pcb(roots: Seq<Tree>)
    ensures
        first_pcb(roots) matches Some(r) ==> is_pcb_tag(tree_tag(r)),
    decreases roots.len(),
{
    if roots.len() > 0 && !is_pcb_tag(tree_tag(roots[0])) {
        lemma_first_pcb(roots.drop_first());
    }
}

fn shape_item_ok(s: &SExpr) -> (r: bool)
    requires
        !is_empty_list(s@),
    ensures
        r == shape_item_readable(s@),
{
    let kids = s.children();
    if kids.len() == 0 {
        return true;
    }
    proof {
        assert(slice_views(kids@)[0] == kids@[0]@);
    }
    match &kids[0] {
        SExpr::List(items) => {
            proof {
                crate::sexpr::lemma_list_items(*items);
            }
            items.len() > 0
        },
        SExpr::Atom(_) => true,
    }
}

fn padstack_ok(p: &SExpr) -> (r: bool)
    requires
        !is_empty_list(p@),
    ensures
        r == padstack_readable(p@),
{
    proof {
        reveal_strlit("shape");
    }
    let found = p.find_all("shape");
    proof {
        lemma_found(found@, tree_children(p@), "shape"@);
    }
    let ghost ss = tagged(tree_children(p@), "shape"@);
    let mut j: usize = 0;
    while j < found.len()
        invariant
            j <= found@.len(),
            crate::sexpr::views(found@) == ss,
            ss == tagged(tree_children(p@), "shape"@),
            forall|k: int| 0 <= k < found@.len() ==> !is_empty_list(#[trigger] found@[k]@),
            forall|k: int| 0 <= k < j ==> shape_item_readable(#[trigger] ss[k]),
        decreases found@.len() - j,
    {
        proof {
            assert(ss[j as int] == found@[j as int]@);
        }
        if !shape_item_ok(found[j]) {
            assert(ss.len() == found@.len());
            assert(!shape_item_readable(tagged(tree_children(p@), "shape"@)[j as int]));
            return false;
        }
        j = j + 1;
    }
    true
}

fn library_ok(lib: &SExpr) -> (r: bool)
    requires
        !is_empty_list(lib@),
    ensures
        r == library_readable(lib@),
{
    proof {
        reveal_strlit("padstack");
    }
    let found = lib.find_all("padstack");
    proof {
        lemma_found(found@, tree_children(lib@), "padstack"@);
    }
    let ghost ps = tagged(tree_children(lib@), "padstack"@);
    let mut j: usize = 0;
    while j < found.len()
        invariant
            j <= found@.len(),
            crate::sexpr::views(found@) == ps,
            ps == tagged(tree_children(lib@), "padstack"@),
            forall|k: int| 0 <= k < found@.len() ==> !is_empty_list(#[trigger] found@[k]@),
            forall|k: int| 0 <= k < j ==> padstack_readable(#[trigger] ps[k]),
        decreases found@.len() - j,
    {
        proof {
            assert(ps[j as int] == found@[j as int]@);
        }
        if !padstack_ok(found[j]) {
            assert(ps.len() == found@.len());
            assert(!padstack_readable(tagged(tree_children(lib@), "padstack"@)[j as int]));
            return false;
        }
        j = j + 1;
    }
    true
}

/// Whether [`parse_dsn`] can read `input` (see [`dsn_readable`]).
pub fn dsn_is_readable(input: &str) -> (r: bool)
    ensures
        r == dsn_readable(input@),
{
    let roots = match read_sexprs(input) {
        Some(v) => v,
        None => {
            return true;
        },
    };
    let ri = match find_pcb_root(&roots) {
        Some(i) => i,
        None => {
            return true;
        },
    };
    let root = &roots[ri];
    proof {
        lemma_first_pcb(slice_views(roots@));
        reveal_strlit("pcb");
        reveal_strlit("PCB");
        reveal_strlit("library");
        lemma_tag_nonempty(root@);
    }
    let items = root.children();
    let ghost kids = slice_views(items@);
    let mut i: usize = 0;
    while i < items.len()
        invariant
            i <= items@.len(),
            kids == slice_views(items@),
            kids == tree_children(root@),
            read_file(preprocessed(input@)) == Some(slice_views(roots@)),
            first_pcb(slice_views(roots@)) == Some(root@),
            forall|k: int|
                0 <= k < i && tree_tag(#[trigger] kids[k]) == "library"@ ==> library_readable(kids[k]),
        decreases items@.len() - i,
    {
        let item = &items[i];
        proof {
            assert(kids[i as int] == item@);
        }
        if str_eq(item.tag(), "library") {
            proof {
                reveal_strlit("library");
                lemma_tag_nonempty(item@);
            }
            if !library_ok(item) {
                assert(tree_tag(tree_children(root@)[i as int]) == "library"@);
                assert(!library_readable(tree_children(root@)[i as int]));
                assert(read_file(preprocessed(input@)) == Some(slice_views(roots@)));
                assert(first_pcb(slice_views(roots@)) == Some(root@));
                return false;
            }
        }
        i = i + 1;
    }
    true
}

fn find_pcb_root(roots: &Vec<SExpr>) -> (r: Option<usize>)
    ensures
        match r {
            Some(i) => i < roots@.len() && first_pcb(slice_views(roots@)) == Some(roots@[i as int]@),
            None => first_pcb(slice_views(roots@)) is None,
        },
{
    let ghost all = slice_views(roots@);
    let mut i: usize = 0;
    assert(all.skip(0) =~= all);
    while i < roots.len()
        invariant
            i <= roots@.len(),
            all == slice_views(roots@),
            first_pcb(all) == first_pcb(all.skip(i as int)),
        decreases roots@.len() - i,
    {
        assert(all.skip(i as int)[0] == roots@[i as int]@);
        let tag = roots[i].tag();
        if str_eq(tag, "pcb") || str_eq(tag, "PCB") {
            return Some(i);
        }
        assert(all.skip(i as int).drop_first() =~= all.skip(i + 1));
        i = i + 1;
    }
    None
}

/// Reads a DSN text into a [`Pcb`].
pub fn parse_dsn(input: &str) -> (r: Result<Pcb, DsnError>)
    requires
        dsn_readable(input@),
    ensures
        match r {
            Ok(p) => spec_parse_dsn(input@) == Ok::<PcbV, DsnError>(p@),
            Err(e) => spec_parse_dsn(input@) == Err::<PcbV, DsnError>(e),
        },
{
    let roots = match read_sexprs(input) {
        Some(v) => v,
        None => {
            return Err(DsnError::Syntax);
        },
    };
    let ri = match find_pcb_root(&roots) {
        Some(i) => i,
        None => {
            return Err(DsnError::NoPcbRoot);
        },
    };
    let root = &roots[ri];
    proof {
        lemma_first_pcb(slice_views(roots@));
        reveal_strlit("pcb");
        reveal_strlit("PCB");
        lemma_tag_nonempty(root@);
    }
    let mut pcb = Pcb {
        id: own(""),
        resolution_unit: own(""),
        resolution_value: own("0"),
        unit: own(""),
        structure: Structure {
            layers: Vec::new(),
            boundary: None,
            vias: Vec::new(),
            rules: Vec::new(),
            keepouts: Vec::new(),
            planes: Vec::new(),
        },
        placement: Placement { components: Vec::new() },
        library: Library { images: Vec::new(), padstacks: Vec::new() },
        network: Network { nets: Vec::new(), classes: Vec::new() },
        wiring: Wiring { wires: Vec::new(), vias: Vec::new() },
    };
    let items = root.children();
    let ghost kids = slice_views(items@);
    proof {
        assert(pcb@.structure.layers =~= empty_structure().layers);
        assert(pcb@.structure.vias =~= empty_structure().vias);
        assert(pcb@.structure.rules =~= empty_structure().rules);
        assert(pcb@.structure.keepouts =~= empty_structure().keepouts);
        assert(pcb@.structure.planes =~= empty_structure().planes);
        assert(pcb@.placement =~= Seq::<ComponentGroupV>::empty());
        assert(pcb@.library.images =~= Seq::<ImageV>::empty());
        assert(pcb@.library.padstacks =~= Seq::<PadstackV>::empty());
        assert(pcb@.network.nets =~= Seq::<NetV>::empty());
        assert(pcb@.network.classes =~= Seq::<NetClassV>::empty());
        assert(pcb@.wiring.wires =~= Seq::<WireV>::empty());
        assert(pcb@.wiring.vias =~= Seq::<PlacedViaV>::empty());
        assert(kids.take(0) =~= Seq::<Tree>::empty());
    }
    let mut i: usize = 0;
    while i < items.len()
        invariant
            i <= items@.len(),
            kids == slice_views(items@),
            kids == tree_children(root@),
            dsn_readable(input@),
            read_file(preprocessed(input@)) == Some(slice_views(roots@)),
            first_pcb(slice_views(roots@)) == Some(root@),
            pcb@ == pcb_fold(kids.take(i as int)),
        decreases items@.len() - i,
    {
        let item = &items[i];
        proof {
            assert(kids.take(i + 1).drop_last() =~= kids.take(i as int));
            assert(kids.take(i + 1).last() == item@);
            assert(kids[i as int] == item@);
            reveal_strlit("resolution");
            reveal_strlit("unit");
            reveal_strlit("structure");
            reveal_strlit("placement");
            reveal_strlit("library");
            reveal_strlit("network");
            reveal_strlit("wiring");
        }
        match item {
            SExpr::Atom(s) => {
                if pcb.id.as_str().unicode_len() == 0 {
                    pcb.id = s.clone();
                }
            },
            SExpr::List(_) => {
                let tag = item.tag();
                if str_eq(tag, "resolution") {
                    proof { lemma_tag_nonempty(item@); }
                    let atoms = atoms_exec(item);
                    pcb.resolution_unit = at_or_exec(&atoms, 0, "um");
                    pcb.resolution_value = at_or_exec(&atoms, 1, "1");
                    proof {
                        assert(text_or(first_atom(item@), "um"@) == at_or(atoms_of(item@), 0, "um"@));
                    }
                } else if str_eq(tag, "unit") {
                    proof { lemma_tag_nonempty(item@); }
                    pcb.unit = match first_atom_exec(item) {
                        Some(u) => u,
                        None => own(""),
                    };
                } else if str_eq(tag, "structure") {
                    proof { lemma_tag_nonempty(item@); }
                    pcb.structure = parse_structure(item);
                } else if str_eq(tag, "placement") {
                    proof { lemma_tag_nonempty(item@); }
                    pcb.placement = parse_placement(item);
                } else if str_eq(tag, "library") {
                    proof {
                        lemma_tag_nonempty(item@);
                        assert(library_readable(item@));
                    }
                    pcb.library = parse_library(item);
                } else if str_eq(tag, "network") {
                    proof { lemma_tag_nonempty(item@); }
                    pcb.network = parse_network(item);
                } else if str_eq(tag, "wiring") {
                    proof { lemma_tag_nonempty(item@); }
                    pcb.wiring = parse_wiring(item);
                }
            },
        }
        i = i + 1;
    }
    assert(kids.take(items@.len() as int) =~= kids);
    Ok(pcb)
}
} // verus!
