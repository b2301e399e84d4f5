use dsn_router::assemble::{assemble_wiring, NetWiring, RoutedPath};
use dsn_router::dsn::{parse_wiring, PlacedVia, Wire, Wiring};
use dsn_router::reader::read_all;
use dsn_router::serialise::{find_wiring_section, format_wiring, write_wiring};
use dsn_router::text::to_chars;

fn wire(layer: &str, width: &str, path: &[(&str, &str)], net: Option<&str>) -> Wire {
    Wire {
        layer: layer.to_string(),
        width: width.to_string(),
        path: path.iter().map(|(x, y)| (x.to_string(), y.to_string())).collect(),
        net: net.map(|n| n.to_string()),
    }
}

#[test]
fn test_write_wiring_replace() {
    let dsn = "(pcb board.dsn\n(wiring\n(wire (path F.Cu 250 0 0 1000 0) (net \"N1\") (type route))\n)\n)\n";
    let wiring = Wiring {
        wires: vec![wire("F.Cu", "200", &[("0", "0"), ("2000", "0")], Some("N2"))],
        vias: vec![],
    };
    let result = write_wiring(dsn, &wiring);
    assert!(result.contains("N2"));
    assert!(!result.contains("N1"));
    assert!(result.contains("(wiring"));
}

#[test]
fn test_write_wiring_insert() {
    let dsn = "(pcb board.dsn\n(network (net \"N1\"))\n)\n";
    let wiring = Wiring {
        wires: vec![wire("B.Cu", "150", &[("100", "100"), ("500", "100")], Some("N1"))],
        vias: vec![],
    };
    let result = write_wiring(dsn, &wiring);
    assert!(result.contains("(wiring"));
    assert!(result.contains("B.Cu"));
}

#[test]
fn format_wiring_exact_text() {
    let wiring = Wiring {
        wires: vec![wire("F.Cu", "200", &[("0", "0"), ("2000", "0"), ("2000", "-50")], Some("N2"))],
        vias: vec![PlacedVia {
            padstack: "Via[0-1]".to_string(),
            x: "10".to_string(),
            y: "20".to_string(),
            net: Some("N2".to_string()),
        }],
    };
    assert_eq!(
        format_wiring(&wiring),
        "(wiring\n  (wire (path F.Cu 200 0 0 2000 0 2000 -50) (net \"N2\") (type route))\n  (via \"Via[0-1]\" 10 20 (net \"N2\") (type route))\n)"
    );
}

#[test]
fn format_wiring_leaves_out_single_point_wires() {
    let wiring = Wiring {
        wires: vec![
            wire("F.Cu", "200", &[("5", "5")], Some("A")),
            wire("B.Cu", "100", &[("1", "2"), ("3", "4")], None),
        ],
        vias: vec![],
    };
    assert_eq!(
        format_wiring(&wiring),
        "(wiring\n  (wire (path B.Cu 100 1 2 3 4) (net \"\") (type route))\n)"
    );
}

#[test]
fn format_wiring_of_nothing() {
    let wiring = Wiring { wires: vec![], vias: vec![] };
    assert_eq!(format_wiring(&wiring), "(wiring\n)");
}

#[test]
fn written_wiring_reads_back() {
    let wiring = Wiring {
        wires: vec![
            wire("F.Cu", "200", &[("0", "0"), ("2000", "0")], Some("N 2")),
            wire("In1.Cu", "150", &[("7", "7")], Some("short")),
            wire("B.Cu", "100", &[("1", "2"), ("3", "4"), ("5", "6")], None),
        ],
        vias: vec![PlacedVia {
            padstack: "Via 600:300".to_string(),
            x: "10".to_string(),
            y: "-20".to_string(),
            net: None,
        }],
    };
    let text = format_wiring(&wiring);
    let trees = read_all(&to_chars(&text)).expect("the written section reads");
    assert_eq!(trees.len(), 1);
    assert_eq!(trees[0].tag(), "wiring");
    let back = parse_wiring(&trees[0]);
    assert_eq!(back.wires.len(), 2);
    assert_eq!(back.wires[0].layer, "F.Cu");
    assert_eq!(back.wires[0].width, "200");
    assert_eq!(
        back.wires[0].path,
        vec![("0".to_string(), "0".to_string()), ("2000".to_string(), "0".to_string())]
    );
    assert_eq!(back.wires[0].net, Some("N 2".to_string()));
    assert_eq!(back.wires[1].layer, "B.Cu");
    assert_eq!(back.wires[1].path.len(), 3);
    assert_eq!(back.wires[1].net, Some(String::new()));
    assert_eq!(back.vias.len(), 1);
    assert_eq!(back.vias[0].padstack, "Via 600:300");
    assert_eq!(back.vias[0].x, "10");
    assert_eq!(back.vias[0].y, "-20");
    assert_eq!(back.vias[0].net, Some(String::new()));
}

#[test]
fn find_wiring_section_positions() {
    let s = to_chars("(pcb b (wiring (wire \"a)\")) )");
    assert_eq!(find_wiring_section(&s), Some((7, 26)));
}

#[test]
fn find_wiring_section_needs_a_section() {
    assert_eq!(find_wiring_section(&to_chars("(pcb b (wirings x) (network))")), None);
    assert_eq!(find_wiring_section(&to_chars("(wiring")), None);
}

#[test]
fn find_wiring_section_takes_only_a_section_of_the_root() {
    // a nested `(wiring` is no section of the board
    assert_eq!(find_wiring_section(&to_chars("(pcb b (x (wiring a)) (wiring c))")), Some((22, 31)));
    assert_eq!(find_wiring_section(&to_chars("(pcb b (x (wiring a)))")), None);
    // nor is one inside a string
    assert_eq!(find_wiring_section(&to_chars("(pcb \"(wiring a)\")")), None);
    // an empty section at the very end of the text is found
    assert_eq!(find_wiring_section(&to_chars("(pcb (wiring)")), Some((5, 12)));
    assert_eq!(find_wiring_section(&to_chars("(pcb (wiring))")), Some((5, 12)));
}

#[test]
fn write_wiring_without_closing_parenthesis_appends() {
    let wiring = Wiring { wires: vec![], vias: vec![] };
    assert_eq!(write_wiring("abc", &wiring), "abc\n(wiring\n)");
}

#[test]
fn write_wiring_inserts_before_last_parenthesis() {
    let wiring = Wiring { wires: vec![], vias: vec![] };
    assert_eq!(write_wiring("(pcb x)\n", &wiring), "(pcb x\n(wiring\n)\n)");
}

#[test]
fn write_wiring_replaces_only_the_section() {
    let wiring = Wiring { wires: vec![], vias: vec![] };
    assert_eq!(
        write_wiring("(pcb x (wiring (wire a)) (tail))", &wiring),
        "(pcb x (wiring\n) (tail))"
    );
}

#[test]
fn routed_board_reads_back() {
    let dsn = "(pcb board.dsn\n  (network (net N1 (pins U1-1 U2-1)))\n)\n";
    let wiring = Wiring {
        wires: vec![wire("F.Cu", "200", &[("0", "0"), ("100", "0")], Some("N1"))],
        vias: vec![PlacedVia { padstack: "V".to_string(), x: "100".to_string(), y: "0".to_string(), net: Some("N1".to_string()) }],
    };
    let out = write_wiring(dsn, &wiring);
    let pcb = dsn_router::dsn::parse_dsn(&out).expect("the routed board parses");
    assert_eq!(pcb.id, "board.dsn");
    assert_eq!(pcb.network.nets.len(), 1);
    assert_eq!(pcb.wiring.wires.len(), 1);
    assert_eq!(pcb.wiring.wires[0].path, vec![("0".to_string(), "0".to_string()), ("100".to_string(), "0".to_string())]);
    assert_eq!(pcb.wiring.wires[0].net, Some("N1".to_string()));
    assert_eq!(pcb.wiring.vias.len(), 1);
    assert_eq!(pcb.wiring.vias[0].padstack, "V");
    let trees = read_all(&to_chars(&out)).expect("reads");
    assert_eq!(trees.len(), 1);
    let items = trees[0].children();
    assert_eq!(items.last().unwrap().tag(), "wiring");
}

#[test]
fn rewired_board_reads_back() {
    let dsn = "(pcb b\n  (wiring\n    (wire (path F.Cu 250 0 0 1000 0) (net \"N1\") (type route))\n  )\n  (network (net N1 (pins U1-1 U2-1)))\n)\n";
    let wiring = Wiring { wires: vec![wire("B.Cu", "100", &[("5", "5"), ("6", "6")], Some("N1"))], vias: vec![] };
    let out = write_wiring(dsn, &wiring);
    let pcb = dsn_router::dsn::parse_dsn(&out).expect("the board parses");
    assert_eq!(pcb.network.nets.len(), 1);
    assert_eq!(pcb.wiring.wires.len(), 1);
    assert_eq!(pcb.wiring.wires[0].layer, "B.Cu");
    assert_eq!(pcb.wiring.wires[0].width, "100");
    let trees = read_all(&to_chars(&out)).expect("reads");
    let items = trees[0].children();
    assert_eq!(items.len(), 3);
    assert_eq!(items[1].tag(), "wiring");
    assert_eq!(items[2].tag(), "network");
}

#[test]
fn assemble_wiring_keeps_the_board_wiring_first() {
    let base = Wiring { wires: vec![wire("F.Cu", "5", &[("0", "0"), ("1", "1")], Some("OLD"))], vias: vec![] };
    let net = |name: &str, n: usize| NetWiring {
        name: name.to_string(),
        width: "25".to_string(),
        via_padstack: "Via".to_string(),
        paths: (0..n)
            .map(|k| RoutedPath { layer: "B.Cu".to_string(), points: vec![(k.to_string(), "0".to_string()), ("9".to_string(), "9".to_string())] })
            .collect(),
        vias: vec![("3".to_string(), "4".to_string())],
    };
    let w = assemble_wiring(base, &vec![net("A", 2), net("B", 1)]);
    let tags: Vec<(String, Option<String>, String)> =
        w.wires.iter().map(|x| (x.layer.clone(), x.net.clone(), x.width.clone())).collect();
    assert_eq!(
        tags,
        vec![
            ("F.Cu".to_string(), Some("OLD".to_string()), "5".to_string()),
            ("B.Cu".to_string(), Some("A".to_string()), "25".to_string()),
            ("B.Cu".to_string(), Some("A".to_string()), "25".to_string()),
            ("B.Cu".to_string(), Some("B".to_string()), "25".to_string()),
        ]
    );
    assert_eq!(w.wires[2].path[0], ("1".to_string(), "0".to_string()));
    assert_eq!(w.vias.len(), 2);
    assert_eq!(w.vias[1].net, Some("B".to_string()));
    assert_eq!(w.vias[1].padstack, "Via");
    assert_eq!((w.vias[0].x.as_str(), w.vias[0].y.as_str()), ("3", "4"));
}

#[test]
fn writing_the_same_wiring_twice_changes_nothing() {
    let wiring = Wiring {
        wires: vec![wire("B.Cu", "150", &[("100", "100"), ("500", "100")], Some("N1"))],
        vias: vec![PlacedVia { padstack: "Via".to_string(), x: "5".to_string(), y: "6".to_string(), net: Some("N1".to_string()) }],
    };
    for dsn in [
        "(pcb board.dsn\n(network (net \"N1\"))\n)\n",
        "(pcb board.dsn\n(wiring\n(wire (path F.Cu 250 0 0 1000 0) (net \"N1\") (type route))\n)\n(tail))\n",
    ] {
        let once = write_wiring(dsn, &wiring);
        assert_eq!(write_wiring(&once, &wiring), once);
    }
}

#[test]
fn the_quote_directive_does_not_hide_the_section() {
    let dsn = "(pcb b\n  (parser (string_quote \")\n    (host_cad \"KiCad's Pcbnew\"))\n  (wiring\n  )\n)\n";
    let s = to_chars(dsn);
    let start = dsn.find("(wiring").unwrap();
    let (a, _) = find_wiring_section(&s).unwrap();
    assert_eq!(a, dsn[..start].chars().count());
    let wiring = Wiring { wires: vec![wire("F.Cu", "200", &[("0", "0"), ("2000", "0")], Some("N2"))], vias: vec![] };
    let out = write_wiring(dsn, &wiring);
    assert_eq!(out.matches("(wiring").count(), 1);
    assert_eq!(write_wiring(&out, &wiring), out);
}

#[test]
fn board_with_quote_directive_and_quoted_names_reads_back() {
    let wiring = Wiring {
        wires: vec![wire("F.Cu", "200", &[("0", "0"), ("100", "0")], Some("N1"))],
        vias: vec![],
    };
    for dsn in [
        "(pcb \"my board.dsn\"\n  (parser (string_quote \")\n    (host_cad \"KiCad's Pcbnew\"))\n  (network (net \"N 1\" (pins U1-1 U2-1)))\n)\n",
        "(pcb \"my board.dsn\"\n  (parser (string_quote \")\n    (host_cad \"KiCad's Pcbnew\"))\n  (wiring (wire (path B.Cu 5 1 1 2 2)))\n  (network (net \"N 1\" (pins U1-1 U2-1)))\n)\n",
    ] {
        let before = dsn_router::dsn::parse_dsn(dsn).expect("the board parses");
        let out = write_wiring(dsn, &wiring);
        let after = dsn_router::dsn::parse_dsn(&out).expect("the routed board parses");
        assert_eq!(after.id, before.id);
        assert_eq!(after.id, "my board.dsn");
        assert_eq!(after.network.nets[0].name, "N 1");
        assert_eq!(after.wiring.wires.len(), 1);
        assert_eq!(after.wiring.wires[0].layer, "F.Cu");
        assert_eq!(after.wiring.wires[0].net, Some("N1".to_string()));
    }
}
