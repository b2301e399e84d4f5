use dsn_router::board::{
    compute_drc, contains_name, decimal_string, kicad_layer_id, kicad_layer_name, kicad_layer_table, kicad_net_id, net_class_of,
    routable_nets,
};
use dsn_router::dsn::{dsn_is_readable, parse_dsn, parse_u32, DsnError, Layer, Net, NetClass};
use dsn_router::reader::preprocess;

fn layers(ns: &[&str]) -> Vec<Layer> {
    ns.iter()
        .map(|n| Layer { name: n.to_string(), layer_type: "signal".to_string(), index: None })
        .collect()
}

fn net(name: &str, pins: &[&str]) -> Net {
    Net { name: name.to_string(), pins: pins.iter().map(|p| p.to_string()).collect() }
}

#[test]
fn kicad_layer_names() {
    let ls = layers(&["Top", "Inner1", "Inner2", "Bottom"]);
    assert_eq!(kicad_layer_name(&ls, "Top"), "F.Cu");
    assert_eq!(kicad_layer_name(&ls, "Inner1"), "In1.Cu");
    assert_eq!(kicad_layer_name(&ls, "Inner2"), "In2.Cu");
    assert_eq!(kicad_layer_name(&ls, "Bottom"), "B.Cu");
    assert_eq!(kicad_layer_name(&ls, "Other"), "Other");
    assert_eq!(kicad_layer_name(&layers(&["Only"]), "Only"), "F.Cu");
}

#[test]
fn kicad_layer_name_of_many_inner_layers() {
    let names: Vec<String> = (0..14).map(|i| format!("L{i}")).collect();
    let refs: Vec<&str> = names.iter().map(|s| s.as_str()).collect();
    let ls = layers(&refs);
    assert_eq!(kicad_layer_name(&ls, "L12"), "In12.Cu");
    assert_eq!(kicad_layer_id(&ls, "L12"), 12);
    assert_eq!(kicad_layer_id(&ls, "L13"), 31);
}

#[test]
fn kicad_layer_ids() {
    let ls = layers(&["Top", "Inner1", "Bottom"]);
    assert_eq!(kicad_layer_id(&ls, "Top"), 0);
    assert_eq!(kicad_layer_id(&ls, "Inner1"), 1);
    assert_eq!(kicad_layer_id(&ls, "Bottom"), 31);
    assert_eq!(kicad_layer_id(&ls, "Other"), 0);
    assert_eq!(kicad_layer_id(&layers(&["Only"]), "Only"), 0);
}

#[test]
fn decimal_strings() {
    assert_eq!(decimal_string(0), "0");
    assert_eq!(decimal_string(7), "7");
    assert_eq!(decimal_string(10), "10");
    assert_eq!(decimal_string(4096), "4096");
}

#[test]
fn kicad_net_ids() {
    let nets = vec![net("A", &[]), net("B", &[]), net("A", &[])];
    assert_eq!(kicad_net_id(&nets, &None), 0);
    assert_eq!(kicad_net_id(&nets, &Some("B".to_string())), 2);
    assert_eq!(kicad_net_id(&nets, &Some("A".to_string())), 3);
    assert_eq!(kicad_net_id(&nets, &Some("C".to_string())), 0);
}

#[test]
fn net_classes() {
    let classes = vec![
        NetClass { name: "power".to_string(), nets: vec!["VCC".to_string(), "GND".to_string()], via: None, rule: None },
        NetClass { name: "default".to_string(), nets: vec!["GND".to_string(), "SIG".to_string()], via: None, rule: None },
    ];
    assert_eq!(net_class_of(&classes, "GND"), Some(0));
    assert_eq!(net_class_of(&classes, "SIG"), Some(1));
    assert_eq!(net_class_of(&classes, "X"), None);
    assert!(contains_name(&classes[0].nets, "VCC"));
    assert!(!contains_name(&classes[0].nets, "SIG"));
}

#[test]
fn parse_u32_values() {
    assert_eq!(parse_u32("0"), Some(0));
    assert_eq!(parse_u32("42"), Some(42));
    assert_eq!(parse_u32("+7"), Some(7));
    assert_eq!(parse_u32("4294967295"), Some(u32::MAX));
    assert_eq!(parse_u32("4294967296"), None);
    assert_eq!(parse_u32(""), None);
    assert_eq!(parse_u32("-1"), None);
    assert_eq!(parse_u32("1a"), None);
}

#[test]
fn preprocess_neutralises_string_quote() {
    assert_eq!(
        preprocess("(pcb x (parser (string_quote \")) (net \"a b\"))"),
        "(pcb x (parser (string_quote dquote)) (net \"a b\"))"
    );
    assert_eq!(preprocess("(a b)"), "(a b)");
    let once = preprocess("(pcb (parser (string_quote \")(string_quote \")) x)");
    assert!(!once.contains("(string_quote \")"));
    assert_eq!(preprocess(&once), once);
}

const BOARD: &str = r#"(PCB demo
  (parser (string_quote ") (host_cad "KiCad's Pcbnew"))
  (resolution mil 1000)
  (unit mil)
  (structure
    (layer Top (type signal) (property (index 0)))
    (layer Bottom (type signal) (property (index 1)))
    (boundary (rect pcb 0 0 1000 500))
    (via "Via[0-1]_600:300_um" "Via2")
    (rule (width 8) (clearance 6.5) (clearance 7 (type smd_smd)))
  )
  (network
    (net N1 (pins U1-1 U2-1))
    (net N2 (pins U1-2))
    (net N3 (pins U1-3 U2-3))
  )
  (wiring
    (wire (path Top 8 0 0 100 0) (net N3) (type route))
    (via "Via2" 50 60 (net N3))
  )
)"#;

#[test]
fn parse_board_with_string_quote() {
    assert!(dsn_is_readable(BOARD));
    let pcb = parse_dsn(BOARD).expect("the board parses");
    assert_eq!(pcb.id, "demo");
    assert_eq!(pcb.resolution_unit, "mil");
    assert_eq!(pcb.resolution_value, "1000");
    assert_eq!(pcb.unit, "mil");
    assert_eq!(pcb.structure.layers.len(), 2);
    assert_eq!(pcb.structure.layers[1].name, "Bottom");
    assert_eq!(pcb.structure.layers[1].index, Some(1));
    assert_eq!(pcb.structure.vias, vec!["Via[0-1]_600:300_um".to_string()]);
    assert_eq!(pcb.network.nets.len(), 3);
    assert_eq!(pcb.wiring.wires.len(), 1);
    assert_eq!(pcb.wiring.vias.len(), 1);
    assert_eq!(pcb.wiring.vias[0].x, "50");
}

#[test]
fn design_rule_defaults() {
    let pcb = parse_dsn(BOARD).expect("the board parses");
    let drc = compute_drc(&pcb);
    assert_eq!(drc.default_width, "8");
    assert_eq!(drc.default_clearance, "6.5");
    assert_eq!(drc.default_via, "Via[0-1]_600:300_um");
    let bare = parse_dsn("(pcb x)").expect("parses");
    let drc = compute_drc(&bare);
    assert_eq!(drc.default_width, "200");
    assert_eq!(drc.default_clearance, "200");
    assert_eq!(drc.default_via, "");
}

#[test]
fn routable_nets_skip_single_pins_and_routed_nets() {
    let pcb = parse_dsn(BOARD).expect("the board parses");
    assert_eq!(routable_nets(&pcb), vec![true, false, false]);
}

#[test]
fn parse_dsn_errors() {
    assert!(matches!(parse_dsn("(pcb x"), Err(DsnError::Syntax)));
    assert!(matches!(parse_dsn("(pcb x))"), Err(DsnError::Syntax)));
    assert!(matches!(parse_dsn("(board x)"), Err(DsnError::NoPcbRoot)));
    assert!(matches!(parse_dsn(""), Err(DsnError::NoPcbRoot)));
}

#[test]
fn unreadable_padstack_is_detected() {
    let bad = "(pcb x (library (padstack p (shape ()))))";
    assert!(!dsn_is_readable(bad));
    let good = "(pcb x (library (padstack p (shape (circle F.Cu 600)))))";
    assert!(dsn_is_readable(good));
    let pcb = parse_dsn(good).expect("parses");
    assert_eq!(pcb.library.padstacks.len(), 1);
    assert_eq!(pcb.library.padstacks[0].shapes.len(), 1);
}

#[test]
fn parse_unicode_identifiers() {
    let pcb = parse_dsn("(pcb Платa (network (net Ω1 (pins Ü1-1 Ü2-1)) (net \"net ∑\")))").expect("parses");
    assert_eq!(pcb.id, "Платa");
    assert_eq!(pcb.network.nets.len(), 2);
    assert_eq!(pcb.network.nets[0].name, "Ω1");
    assert_eq!(pcb.network.nets[0].pins, vec!["Ü1-1".to_string(), "Ü2-1".to_string()]);
    assert_eq!(pcb.network.nets[1].name, "net ∑");
}

#[test]
fn kicad_layer_table_names_inner_layers_as_segments_do() {
    let ls = layers(&["Top", "Inner1", "Inner2", "Bottom"]);
    let table = kicad_layer_table(&ls);
    assert_eq!(
        table,
        vec![(0, "F.Cu".to_string()), (1, "In1.Cu".to_string()), (2, "In2.Cu".to_string()), (31, "B.Cu".to_string())]
    );
    for (pos, layer) in ls.iter().enumerate() {
        assert_eq!(table[pos].1, kicad_layer_name(&ls, &layer.name));
        assert_eq!(table[pos].0, kicad_layer_id(&ls, &layer.name));
    }
    assert_eq!(kicad_layer_table(&layers(&["Only"])), vec![(0, "F.Cu".to_string())]);
}
