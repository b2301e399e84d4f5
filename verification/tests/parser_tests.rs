use dsn_router::dsn::parse_dsn;
use dsn_router::reader::{read_all, read_sexprs};
use dsn_router::sexpr::SExpr;
use dsn_router::text::to_chars;

#[test]
fn test_parse_atoms() {
    for atom in [
        r#"(string_quote ")"#,
        r#"(comment "")"#,
        r#"(abc 123)"#,
        r#"(abc -123)"#,
        r#"(abc-1# -123)"#,
        r#"(MC-BD/R# -1.23)"#,
        r#"(host_version "(5.1.5)-3")"#,
        r#"(host_cad "KiCad's cad")"#,
    ] {
        let chars = to_chars(atom);
        let parsed = read_all(&chars);
        assert!(parsed.is_some(), "failed to parse {atom:?}");
        assert_eq!(parsed.unwrap().len(), 1);
    }
}

#[test]
fn test_parse_simple_dsn() {
    let pcb = parse_dsn(
        r#"(pcb ./test.dsn
          (resolution um 10)
          (unit um)
          (structure
            (layer F.Cu (type signal) (property (index 0)))
            (layer B.Cu (type signal) (property (index 1)))
            (boundary (path pcb 0 -5000 -5000 5000 -5000 5000 5000 -5000 5000 -5000 -5000))
            (via "Via[0-1]_600:300_um")
            (rule (width 200) (clearance 200))
          )
          (placement
            (component "Resistor_SMD:R_0402"
              (place R1 3000 0 front 0 (PN "1k"))
            )
          )
          (library
            (image "Resistor_SMD:R_0402"
              (pin padstack1 1 -500 0)
              (pin padstack1 2  500 0)
            )
            (padstack "Via[0-1]_600:300_um"
              (shape (circle F.Cu 600))
              (shape (circle B.Cu 600))
              (attach off)
            )
          )
          (network
            (net "Net1" (pins R1-1 C1-1))
            (class "default" "" "Net1"
              (circuit (use_via "Via[0-1]_600:300_um"))
              (rule (width 200) (clearance 200))
            )
          )
          (wiring
            (wire (path F.Cu 160 2500 0 -1200 0) (net "Net1") (type route))
          )
        )"#,
    )
    .expect("parse failed");

    assert_eq!(pcb.structure.layers.len(), 2);
    assert_eq!(pcb.structure.layers[0].name, "F.Cu");
    assert!(pcb.structure.boundary.is_some());
    assert_eq!(pcb.placement.components.len(), 1);
    assert_eq!(pcb.placement.components[0].places[0].id, "R1");
    assert_eq!(pcb.network.nets.len(), 1);
    assert_eq!(pcb.network.nets[0].name, "Net1");
    assert_eq!(pcb.wiring.wires.len(), 1);
}

fn atom(s: &str) -> SExpr {
    SExpr::Atom(s.to_string())
}

#[test]
fn sexpr_accessors() {
    let e = SExpr::List(vec![
        atom("net"),
        atom("N1"),
        SExpr::List(vec![atom("pins"), atom("U1-1"), atom("U2-1")]),
        atom("x"),
        SExpr::List(vec![atom("pins"), atom("U3-1")]),
        SExpr::List(vec![]),
    ]);
    assert_eq!(e.tag(), "net");
    assert_eq!(e.children().len(), 5);
    assert_eq!(e.atom_children(), vec!["N1", "x"]);
    assert_eq!(e.find_all("pins").len(), 2);
    // an empty tag finds the untagged lists, never the atoms
    assert_eq!(e.find_all("").len(), 1);
    let f = SExpr::List(vec![atom("x"), atom("a"), SExpr::List(vec![atom("b")])]);
    assert!(f.find_all("").is_empty());
    assert_eq!(e.find_first("pins").unwrap().atom_children(), vec!["U1-1", "U2-1"]);
    assert!(e.find_first("rule").is_none());
    assert_eq!(atom("a").as_atom(), Some("a"));
    assert_eq!(e.as_atom(), None);
    assert_eq!(atom("a").tag(), "");
    assert_eq!(SExpr::List(vec![SExpr::List(vec![])]).tag(), "");
}

#[test]
fn reader_words_strings_and_lists() {
    let parsed = read_all(&to_chars("  (a \"b c\" (d)) e\n\"unclosed")).expect("reads");
    assert_eq!(parsed.len(), 3);
    assert_eq!(parsed[0].tag(), "a");
    assert_eq!(parsed[0].atom_children(), vec!["b c"]);
    assert_eq!(parsed[0].find_all("d").len(), 1);
    assert_eq!(parsed[1].as_atom(), Some("e"));
    assert_eq!(parsed[2].as_atom(), Some("\"unclosed"));
}

#[test]
fn reader_rejects_unbalanced_text() {
    assert!(read_all(&to_chars("(a (b)")).is_none());
    assert!(read_all(&to_chars("a)")).is_none());
    assert_eq!(read_all(&to_chars("   ")).map(|v| v.len()), Some(0));
}

#[test]
fn read_sexprs_applies_the_quote_directive() {
    let v = read_sexprs("(pcb (parser (string_quote \")) (net \"a b\"))").expect("reads");
    assert_eq!(v.len(), 1);
    let net = v[0].find_first("net").unwrap();
    assert_eq!(net.atom_children(), vec!["a b"]);
}
